//! Port numbers as decimal text.
//!
//! A port is written as at least one decimal digit, with an optional `+` in
//! front and any number of leading zeros, and must fit sixteen bits.

use vstd::prelude::*;

verus! {

/// The plus sign that may stand in front of the digits.
pub const PLUS: u8 = 0x2b;

/// Whether `b` is a decimal digit.
pub open spec fn is_digit(b: u8) -> bool {
    0x30 <= b && b <= 0x39
}

/// Whether every byte of `s` is a decimal digit.
pub open spec fn all_digits(s: Seq<u8>) -> bool {
    forall|i: int| 0 <= i < s.len() ==> is_digit(#[trigger] s[i])
}

/// What one digit counts for; zero for a byte that is no digit.
pub open spec fn digit_value(b: u8) -> nat {
    if is_digit(b) {
        (b - 0x30) as nat
    } else {
        0
    }
}

/// The number that the digits of `s` write in base ten.
pub open spec fn decimal_value(s: Seq<u8>) -> nat
    decreases s.len(),
{
    if s.len() == 0 {
        0
    } else {
        decimal_value(s.drop_last()) * 10 + digit_value(s.last())
    }
}

/// The digits of `n` in base ten, without leading zeros.
pub open spec fn decimal_digits(n: nat) -> Seq<u8>
    decreases n,
{
    if n < 10 {
        seq![(0x30 + n) as u8]
    } else {
        decimal_digits(n / 10).push((0x30 + n % 10) as u8)
    }
}

/// `s` without the one `+` that may lead it.
pub open spec fn unsigned_part(s: Seq<u8>) -> Seq<u8> {
    if s.len() > 0 && s[0] == PLUS {
        s.skip(1)
    } else {
        s
    }
}

/// The port that `s` writes, if it writes one.
pub open spec fn port_of(s: Seq<u8>) -> Option<u16> {
    let d = unsigned_part(s);
    if d.len() > 0 && all_digits(d) && decimal_value(d) <= 0xffff {
        Some(decimal_value(d) as u16)
    } else {
        None
    }
}

/// A number is at least what any prefix of its digits writes.
pub proof fn lemma_prefix_value(s: Seq<u8>, k: int)
    requires
        0 <= k <= s.len(),
    ensures
        decimal_value(s.subrange(0, k)) <= decimal_value(s),
    decreases s.len(),
{
    if k == s.len() {
        assert(s.subrange(0, k) =~= s);
    } else {
        assert(s.drop_last().subrange(0, k) =~= s.subrange(0, k));
        lemma_prefix_value(s.drop_last(), k);
    }
}

/// The digits of a number are digits, at least one, and write that number.
pub proof fn lemma_digits_value(n: nat)
    ensures
        decimal_digits(n).len() > 0,
        all_digits(decimal_digits(n)),
        decimal_value(decimal_digits(n)) == n,
    decreases n,
{
    if n < 10 {
        let s = decimal_digits(n);
        assert(s.drop_last() =~= Seq::<u8>::empty());
        assert(decimal_value(s.drop_last()) == 0);
    } else {
        lemma_digits_value(n / 10);
        let head = decimal_digits(n / 10);
        let s = decimal_digits(n);
        assert(s.drop_last() =~= head);
        assert(s.last() == (0x30 + n % 10) as u8);
    }
}

/// Writing a port and reading it back gives the same port.
pub proof fn lemma_port_round_trip(p: u16)
    ensures
        port_of(decimal_digits(p as nat)) == Some(p),
{
    lemma_digits_value(p as nat);
    let s = decimal_digits(p as nat);
    assert(is_digit(s[0]));
}

/// Reads a port from its decimal text.
pub fn parse_port(s: &[u8]) -> (r: Option<u16>)
    ensures
        r == port_of(s@),
{
    let start: usize = if s.len() > 0 && s[0] == PLUS {
        1
    } else {
        0
    };
    let ghost d = unsigned_part(s@);
    assert(d =~= s@.subrange(start as int, s@.len() as int));
    if start == s.len() {
        return None;
    }
    let mut value: u32 = 0;
    let mut i: usize = start;
    while i < s.len()
        invariant
            start <= i <= s@.len(),
            d == unsigned_part(s@),
            d == s@.subrange(start as int, s@.len() as int),
            all_digits(d.subrange(0, i - start)),
            value == decimal_value(d.subrange(0, i - start)),
            value <= 0xffff,
        decreases s.len() - i,
    {
        let b: u8 = s[i];
        if b < 0x30 || b > 0x39 {
            assert(!is_digit(d[i - start]));
            return None;
        }
        let digit: u32 = (b - 0x30) as u32;
        let next: u32 = value * 10 + digit;
        proof {
            let longer = d.subrange(0, i + 1 - start);
            assert(longer.drop_last() =~= d.subrange(0, i - start));
            assert(longer.last() == b);
            assert(decimal_value(longer) == next);
            lemma_prefix_value(d, i + 1 - start);
        }
        if next > 0xffff {
            return None;
        }
        value = next;
        i += 1;
    }
    assert(d.subrange(0, i - start) =~= d);
    Some(value as u16)
}

/// Writes a port in decimal, without leading zeros.
pub fn port_digits(p: u16) -> (r: Vec<u8>)
    ensures
        r@ == decimal_digits(p as nat),
{
    let mut rev: Vec<u8> = Vec::new();
    let mut n: u16 = p;
    while n >= 10
        invariant
            decimal_digits(p as nat) == decimal_digits(n as nat) + rev@.reverse(),
        decreases n,
    {
        let ghost before = rev@;
        let digit: u8 = 0x30 + (n % 10) as u8;
        rev.push(digit);
        assert(decimal_digits(n as nat) == decimal_digits((n / 10) as nat).push(digit));
        assert(decimal_digits((n / 10) as nat).push(digit) + before.reverse()
            =~= decimal_digits((n / 10) as nat) + rev@.reverse());
        n = n / 10;
    }
    let ghost before = rev@;
    rev.push(0x30 + n as u8);
    assert(decimal_digits(n as nat) + before.reverse() =~= rev@.reverse());
    let mut out: Vec<u8> = Vec::new();
    let mut k: usize = rev.len();
    while k > 0
        invariant
            k <= rev@.len(),
            out@ == rev@.reverse().subrange(0, rev@.len() - k),
        decreases k,
    {
        k -= 1;
        out.push(rev[k]);
        assert(out@ =~= rev@.reverse().subrange(0, rev@.len() - k));
    }
    assert(out@ =~= rev@.reverse());
    out
}

} // verus!
