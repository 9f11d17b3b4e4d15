//! Byte-level text primitives: whitespace, searching, trimming and tokens.
//!
//! Everything the proxy reads is a byte string. Whitespace means ASCII
//! whitespace: the space and the control characters from horizontal tab
//! (0x09) to carriage return (0x0d).

use vstd::prelude::*;

verus! {

/// Line feed, the byte that ends a line.
pub const LF: u8 = 0x0a;

/// Carriage return, tolerated in front of a line feed.
pub const CR: u8 = 0x0d;

/// The colon that parts a header's name from its value.
pub const COLON: u8 = 0x3a;

/// Whether `b` is ASCII whitespace.
pub open spec fn is_space(b: u8) -> bool {
    b == 0x20 || (0x09 <= b && b <= 0x0d)
}

/// Whether every byte of `s` is whitespace.
pub open spec fn all_spaces(s: Seq<u8>) -> bool {
    forall|i: int| 0 <= i < s.len() ==> is_space(#[trigger] s[i])
}

/// Whether no byte of `s` is whitespace.
pub open spec fn no_spaces(s: Seq<u8>) -> bool {
    forall|i: int| 0 <= i < s.len() ==> !is_space(#[trigger] s[i])
}

/// The first position at or after `from` that holds `b`, or the length of
/// `s` where no such position exists.
pub open spec fn index_of(s: Seq<u8>, b: u8, from: int) -> int
    decreases s.len() - from,
{
    if 0 <= from < s.len() && s[from] != b {
        index_of(s, b, from + 1)
    } else {
        from
    }
}

/// The end of the run of whitespace that starts at `from`.
pub open spec fn spaces_end(s: Seq<u8>, from: int) -> int
    decreases s.len() - from,
{
    if 0 <= from < s.len() && is_space(s[from]) {
        spaces_end(s, from + 1)
    } else {
        from
    }
}

/// The end of the run of non-whitespace bytes that starts at `from`.
pub open spec fn word_end(s: Seq<u8>, from: int) -> int
    decreases s.len() - from,
{
    if 0 <= from < s.len() && !is_space(s[from]) {
        word_end(s, from + 1)
    } else {
        from
    }
}

/// The start of the run of whitespace that ends just before `end`.
pub open spec fn spaces_start(s: Seq<u8>, end: int) -> int
    decreases end,
{
    if 0 < end <= s.len() && is_space(s[end - 1]) {
        spaces_start(s, end - 1)
    } else {
        end
    }
}

/// `s` without its leading and trailing whitespace.
pub open spec fn trimmed(s: Seq<u8>) -> Seq<u8> {
    let a = spaces_end(s, 0);
    let b = spaces_start(s, s.len() as int);
    if a < b {
        s.subrange(a, b)
    } else {
        Seq::empty()
    }
}

/// `s` without its trailing whitespace.
pub open spec fn trimmed_end(s: Seq<u8>) -> Seq<u8> {
    s.subrange(0, spaces_start(s, s.len() as int))
}

/// Whether `s` does not end with whitespace.
pub open spec fn no_trailing_space(s: Seq<u8>) -> bool {
    s.len() == 0 || !is_space(s.last())
}

/// The whitespace-delimited tokens of `s` that start at or after `from`, in
/// order: each is a maximal run of non-whitespace bytes.
pub open spec fn tokens_from(s: Seq<u8>, from: int) -> Seq<Seq<u8>>
    decreases s.len() - from,
{
    let a = spaces_end(s, from);
    let b = word_end(s, a);
    if 0 <= from <= a && a < b <= s.len() {
        seq![s.subrange(a, b)] + tokens_from(s, b)
    } else {
        Seq::empty()
    }
}

/// The whitespace-delimited tokens of `s`.
pub open spec fn tokens(s: Seq<u8>) -> Seq<Seq<u8>> {
    tokens_from(s, 0)
}

/// The views of a vector of byte strings.
pub open spec fn views(v: Seq<Vec<u8>>) -> Seq<Seq<u8>> {
    Seq::new(v.len(), |i: int| v[i]@)
}

/// `index_of` finds the first `b`: nothing before its result is `b`, and
/// its result holds `b` unless it is the length.
pub proof fn lemma_index_of(s: Seq<u8>, b: u8, from: int)
    requires
        0 <= from <= s.len(),
    ensures
        from <= index_of(s, b, from) <= s.len(),
        forall|j: int| from <= j < index_of(s, b, from) ==> s[j] != b,
        index_of(s, b, from) < s.len() ==> s[index_of(s, b, from)] == b,
    decreases s.len() - from,
{
    if from < s.len() && s[from] != b {
        lemma_index_of(s, b, from + 1);
    }
}

/// `spaces_end` stops at the first byte that is no whitespace.
pub proof fn lemma_spaces_end(s: Seq<u8>, from: int)
    requires
        0 <= from <= s.len(),
    ensures
        from <= spaces_end(s, from) <= s.len(),
        forall|j: int| from <= j < spaces_end(s, from) ==> is_space(s[j]),
        spaces_end(s, from) < s.len() ==> !is_space(s[spaces_end(s, from)]),
    decreases s.len() - from,
{
    if from < s.len() && is_space(s[from]) {
        lemma_spaces_end(s, from + 1);
    }
}

/// `word_end` stops at the first whitespace byte.
pub proof fn lemma_word_end(s: Seq<u8>, from: int)
    requires
        0 <= from <= s.len(),
    ensures
        from <= word_end(s, from) <= s.len(),
        forall|j: int| from <= j < word_end(s, from) ==> !is_space(s[j]),
        word_end(s, from) < s.len() ==> is_space(s[word_end(s, from)]),
        from < s.len() && !is_space(s[from]) ==> from < word_end(s, from),
    decreases s.len() - from,
{
    if from < s.len() && !is_space(s[from]) {
        lemma_word_end(s, from + 1);
    }
}

/// `spaces_start` stops behind the last byte that is no whitespace.
pub proof fn lemma_spaces_start(s: Seq<u8>, end: int)
    requires
        0 <= end <= s.len(),
    ensures
        0 <= spaces_start(s, end) <= end,
        forall|j: int| spaces_start(s, end) <= j < end ==> is_space(s[j]),
        0 < spaces_start(s, end) ==> !is_space(s[spaces_start(s, end) - 1]),
    decreases end,
{
    if 0 < end && is_space(s[end - 1]) {
        lemma_spaces_start(s, end - 1);
    }
}

/// Whether `s` neither begins nor ends with whitespace.
pub open spec fn is_trimmed(s: Seq<u8>) -> bool {
    s.len() == 0 || (!is_space(s[0]) && !is_space(s.last()))
}

/// The position that `index_of` returns is the only one with nothing but
/// other bytes before it that holds `b` or is the length.
pub proof fn lemma_index_of_unique(s: Seq<u8>, b: u8, from: int, k: int)
    requires
        0 <= from <= k <= s.len(),
        forall|j: int| from <= j < k ==> s[j] != b,
        k < s.len() ==> s[k] == b,
    ensures
        index_of(s, b, from) == k,
    decreases k - from,
{
    if from < k {
        lemma_index_of_unique(s, b, from + 1, k);
    }
}

/// A search that succeeds in `s` finds the same position in `s` with more
/// bytes behind it.
pub proof fn lemma_index_of_prefix(s: Seq<u8>, more: Seq<u8>, b: u8, from: int)
    requires
        0 <= from <= s.len(),
        index_of(s, b, from) < s.len(),
    ensures
        index_of(s + more, b, from) == index_of(s, b, from),
{
    lemma_index_of(s, b, from);
    let k = index_of(s, b, from);
    assert forall|j: int| from <= j < k implies (s + more)[j] != b by {
        assert((s + more)[j] == s[j]);
    }
    assert((s + more)[k] == s[k]);
    lemma_index_of_unique(s + more, b, from, k);
}

/// A search behind `left` in `left + right` is a search in `right`.
pub proof fn lemma_index_of_shift(left: Seq<u8>, right: Seq<u8>, b: u8, k: int)
    requires
        0 <= k <= right.len(),
    ensures
        index_of(left + right, b, left.len() + k) == left.len() + index_of(right, b, k),
    decreases right.len() - k,
{
    if k < right.len() {
        assert((left + right)[left.len() + k] == right[k]);
        if right[k] != b {
            lemma_index_of_shift(left, right, b, k + 1);
        }
    }
}

/// The position that `spaces_end` returns is the only one behind a run of
/// whitespace that holds another byte or is the length.
pub proof fn lemma_spaces_end_unique(s: Seq<u8>, from: int, k: int)
    requires
        0 <= from <= k <= s.len(),
        forall|j: int| from <= j < k ==> is_space(s[j]),
        k < s.len() ==> !is_space(s[k]),
    ensures
        spaces_end(s, from) == k,
    decreases k - from,
{
    if from < k {
        lemma_spaces_end_unique(s, from + 1, k);
    }
}

/// The position that `spaces_start` returns is the only one in front of a
/// run of whitespace that follows another byte or is zero.
pub proof fn lemma_spaces_start_unique(s: Seq<u8>, end: int, k: int)
    requires
        0 <= k <= end <= s.len(),
        forall|j: int| k <= j < end ==> is_space(s[j]),
        0 < k ==> !is_space(s[k - 1]),
    ensures
        spaces_start(s, end) == k,
    decreases end - k,
{
    if k < end {
        lemma_spaces_start_unique(s, end - 1, k);
    }
}

/// The position that `word_end` returns is the only one behind a run of
/// non-whitespace bytes that holds whitespace or is the length.
pub proof fn lemma_word_end_unique(s: Seq<u8>, from: int, k: int)
    requires
        0 <= from <= k <= s.len(),
        forall|j: int| from <= j < k ==> !is_space(s[j]),
        k < s.len() ==> is_space(s[k]),
    ensures
        word_end(s, from) == k,
    decreases k - from,
{
    if from < k {
        lemma_word_end_unique(s, from + 1, k);
    }
}

/// The first token at or after `from`: where whitespace fills `s` from
/// `from` up to `a`, and a word follows from `a` up to `b`, that word is
/// the first token and the others are those from `b` on.
pub proof fn lemma_tokens_step(s: Seq<u8>, from: int, a: int, b: int)
    requires
        0 <= from <= a < b <= s.len(),
        forall|j: int| from <= j < a ==> is_space(s[j]),
        forall|j: int| a <= j < b ==> !is_space(s[j]),
        b < s.len() ==> is_space(s[b]),
    ensures
        tokens_from(s, from) == seq![s.subrange(a, b)] + tokens_from(s, b),
{
    lemma_spaces_end_unique(s, from, a);
    lemma_word_end_unique(s, a, b);
}

/// Where nothing but whitespace is left from `from` on, no token is left.
pub proof fn lemma_tokens_end(s: Seq<u8>, from: int)
    requires
        0 <= from <= s.len(),
        forall|j: int| from <= j < s.len() ==> is_space(s[j]),
    ensures
        tokens_from(s, from) == Seq::<Seq<u8>>::empty(),
{
    lemma_spaces_end_unique(s, from, s.len() as int);
    lemma_word_end(s, s.len() as int);
}

/// A run of whitespace behind `left` in `left + right` ends where it ends
/// in `right`.
pub proof fn lemma_spaces_end_shift(left: Seq<u8>, right: Seq<u8>, k: int)
    requires
        0 <= k <= right.len(),
    ensures
        spaces_end(left + right, left.len() + k) == left.len() + spaces_end(right, k),
    decreases right.len() - k,
{
    if k < right.len() {
        assert((left + right)[left.len() + k] == right[k]);
        if is_space(right[k]) {
            lemma_spaces_end_shift(left, right, k + 1);
        }
    }
}

/// A word behind `left` in `left + right` ends where it ends in `right`.
pub proof fn lemma_word_end_shift(left: Seq<u8>, right: Seq<u8>, k: int)
    requires
        0 <= k <= right.len(),
    ensures
        word_end(left + right, left.len() + k) == left.len() + word_end(right, k),
    decreases right.len() - k,
{
    if k < right.len() {
        assert((left + right)[left.len() + k] == right[k]);
        if !is_space(right[k]) {
            lemma_word_end_shift(left, right, k + 1);
        }
    }
}

/// The tokens behind `left` in `left + right` are the tokens of `right`.
pub proof fn lemma_tokens_shift(left: Seq<u8>, right: Seq<u8>, k: int)
    requires
        0 <= k <= right.len(),
    ensures
        tokens_from(left + right, left.len() + k) == tokens_from(right, k),
    decreases right.len() - k,
{
    let whole = left + right;
    let a = spaces_end(right, k);
    lemma_spaces_end(right, k);
    let b = word_end(right, a);
    lemma_word_end(right, a);
    lemma_spaces_end_shift(left, right, k);
    lemma_word_end_shift(left, right, a);
    if a < b {
        lemma_tokens_shift(left, right, b);
        assert(whole.subrange(left.len() + a, left.len() + b) =~= right.subrange(a, b));
    }
}

/// Whitespace in front of the tokens does not count.
pub proof fn lemma_tokens_skip_spaces(s: Seq<u8>, from: int)
    requires
        0 <= from <= s.len(),
    ensures
        tokens_from(s, from) == tokens_from(s, spaces_end(s, from)),
{
    let a = spaces_end(s, from);
    lemma_spaces_end(s, from);
    assert(spaces_end(s, a) == a);
}

/// The tokens of a word, some whitespace and more text are the word and
/// then the tokens of the other text.
pub proof fn lemma_tokens_prepend(word: Seq<u8>, gap: Seq<u8>, rest: Seq<u8>)
    requires
        word.len() > 0,
        no_spaces(word),
        gap.len() > 0,
        all_spaces(gap),
    ensures
        tokens(word + gap + rest) == seq![word] + tokens(rest),
{
    let tail = gap + rest;
    let s = word + tail;
    let w = word.len() as int;
    assert(word + gap + rest =~= s);
    assert forall|j: int| 0 <= j < w implies !is_space(s[j]) by {
        assert(s[j] == word[j]);
    }
    assert(s[w] == gap[0]);
    lemma_tokens_step(s, 0, 0, w);
    assert(s.subrange(0, w) =~= word);
    lemma_tokens_shift(word, tail, 0);
    assert forall|j: int| 0 <= j < gap.len() implies is_space(tail[j]) by {
        assert(tail[j] == gap[j]);
    }
    lemma_spaces_end(tail, 0);
    let a = spaces_end(tail, 0);
    assert(a >= gap.len()) by {
        if a < gap.len() {
            assert(is_space(tail[a]));
        }
    }
    lemma_tokens_skip_spaces(tail, 0);
    lemma_tokens_skip_spaces(tail, gap.len() as int);
    assert(spaces_end(tail, gap.len() as int) == a) by {
        lemma_spaces_end(tail, gap.len() as int);
        lemma_spaces_end_unique(tail, gap.len() as int, a);
    }
    lemma_tokens_shift(gap, rest, 0);
}

/// A word is its own only token.
pub proof fn lemma_tokens_of_word(word: Seq<u8>)
    requires
        word.len() > 0,
        no_spaces(word),
    ensures
        tokens(word) == seq![word],
{
    lemma_tokens_step(word, 0, 0, word.len() as int);
    lemma_tokens_end(word, word.len() as int);
    assert(word.subrange(0, word.len() as int) =~= word);
    assert(seq![word] + Seq::<Seq<u8>>::empty() =~= seq![word]);
}

/// Every token holds at least one byte, and no whitespace.
pub proof fn lemma_tokens_are_words(s: Seq<u8>, from: int)
    requires
        0 <= from <= s.len(),
    ensures
        forall|k: int|
            0 <= k < tokens_from(s, from).len() ==> (#[trigger] tokens_from(s, from)[k]).len() > 0
                && no_spaces(tokens_from(s, from)[k]),
    decreases s.len() - from,
{
    let a = spaces_end(s, from);
    lemma_spaces_end(s, from);
    let b = word_end(s, a);
    lemma_word_end(s, a);
    if a < b {
        lemma_tokens_are_words(s, b);
        let first = s.subrange(a, b);
        let rest = tokens_from(s, b);
        assert(tokens_from(s, from) == seq![first] + rest);
        assert forall|k: int| 0 <= k < tokens_from(s, from).len() implies (#[trigger] tokens_from(
            s,
            from,
        )[k]).len() > 0 && no_spaces(tokens_from(s, from)[k]) by {
            if k == 0 {
                assert(tokens_from(s, from)[0] == first);
                assert forall|i: int| 0 <= i < first.len() implies !is_space(#[trigger] first[i]) by {
                    assert(first[i] == s[a + i]);
                }
            } else {
                assert(tokens_from(s, from)[k] == rest[k - 1]);
            }
        }
    }
}

/// Trimming takes whitespace from both ends and nothing else: `s` is its
/// trimmed form between two runs of whitespace, and the trimmed form
/// neither begins nor ends with whitespace.
pub proof fn lemma_trimmed(s: Seq<u8>)
    ensures
        is_trimmed(trimmed(s)),
        exists|left: Seq<u8>, right: Seq<u8>|
            all_spaces(left) && all_spaces(right) && s == left + trimmed(s) + right,
{
    let a = spaces_end(s, 0);
    let b = spaces_start(s, s.len() as int);
    lemma_spaces_end(s, 0);
    lemma_spaces_start(s, s.len() as int);
    if a < b {
        let left = s.subrange(0, a);
        let right = s.subrange(b, s.len() as int);
        assert(s =~= left + trimmed(s) + right);
        assert(all_spaces(left) && all_spaces(right) && s == left + trimmed(s) + right);
    } else {
        let left = s;
        let right = Seq::<u8>::empty();
        assert forall|i: int| 0 <= i < s.len() implies is_space(#[trigger] s[i]) by {
            if i >= a {
                assert(a <= i < s.len());
                assert(b <= i);
            }
        }
        assert(s =~= left + trimmed(s) + right);
        assert(all_spaces(left) && all_spaces(right) && s == left + trimmed(s) + right);
    }
}

/// Whitespace around a byte string that neither begins nor ends with
/// whitespace is exactly what trimming removes.
pub proof fn lemma_trimmed_of_padded(left: Seq<u8>, core: Seq<u8>, right: Seq<u8>)
    requires
        all_spaces(left),
        all_spaces(right),
        is_trimmed(core),
    ensures
        trimmed(left + core + right) == core,
{
    let s = left + core + right;
    let a = left.len() as int;
    let b = a + core.len();
    assert forall|j: int| 0 <= j < a implies is_space(s[j]) by {
        assert(s[j] == left[j]);
    }
    assert forall|j: int| b <= j < s.len() implies is_space(s[j]) by {
        assert(s[j] == right[j - b]);
    }
    if core.len() == 0 {
        lemma_spaces_end_unique(s, 0, s.len() as int);
        lemma_spaces_start(s, s.len() as int);
        assert(trimmed(s) =~= core);
    } else {
        assert(s[a] == core[0]);
        assert(s[b - 1] == core.last());
        lemma_spaces_end_unique(s, 0, a);
        lemma_spaces_start_unique(s, s.len() as int, b);
        assert(s.subrange(a, b) =~= core);
    }
}

/// Trimming the end takes whitespace from the end and nothing else: what
/// is left does not end with whitespace, and `s` is what is left and then
/// a run of whitespace.
pub proof fn lemma_trimmed_end(s: Seq<u8>)
    ensures
        no_trailing_space(trimmed_end(s)),
        exists|right: Seq<u8>| all_spaces(right) && s == trimmed_end(s) + right,
{
    let b = spaces_start(s, s.len() as int);
    lemma_spaces_start(s, s.len() as int);
    let right = s.subrange(b, s.len() as int);
    assert(s =~= trimmed_end(s) + right);
    assert(all_spaces(right) && s == trimmed_end(s) + right);
}

/// Whitespace behind a byte string that does not end with whitespace is
/// exactly what trimming the end removes.
pub proof fn lemma_trimmed_end_of_padded(core: Seq<u8>, right: Seq<u8>)
    requires
        no_trailing_space(core),
        all_spaces(right),
    ensures
        trimmed_end(core + right) == core,
{
    let s = core + right;
    let b = core.len() as int;
    assert forall|j: int| b <= j < s.len() implies is_space(s[j]) by {
        assert(s[j] == right[j - b]);
    }
    if b > 0 {
        assert(s[b - 1] == core.last());
    }
    lemma_spaces_start_unique(s, s.len() as int, b);
    assert(s.subrange(0, b) =~= core);
}

/// Decides [`is_space`] for one byte.
pub fn byte_is_space(b: u8) -> (r: bool)
    ensures
        r == is_space(b),
{
    b == 0x20 || (0x09 <= b && b <= 0x0d)
}

/// Whether two byte strings hold the same bytes.
pub fn bytes_eq(a: &[u8], b: &[u8]) -> (r: bool)
    ensures
        r == (a@ == b@),
{
    if a.len() != b.len() {
        return false;
    }
    let mut i: usize = 0;
    while i < a.len()
        invariant
            a@.len() == b@.len(),
            i <= a@.len(),
            forall|j: int| 0 <= j < i ==> a@[j] == b@[j],
        decreases a.len() - i,
    {
        if a[i] != b[i] {
            return false;
        }
        i += 1;
    }
    assert(a@ =~= b@);
    true
}

/// A copy of the bytes of `s` from `from` up to `to`.
pub fn copy_range(s: &[u8], from: usize, to: usize) -> (r: Vec<u8>)
    requires
        from <= to <= s@.len(),
    ensures
        r@ == s@.subrange(from as int, to as int),
{
    let mut r: Vec<u8> = Vec::new();
    let mut i: usize = from;
    while i < to
        invariant
            from <= i <= to <= s@.len(),
            r@ == s@.subrange(from as int, i as int),
        decreases to - i,
    {
        r.push(s[i]);
        i += 1;
        assert(r@ =~= s@.subrange(from as int, i as int));
    }
    r
}

/// The first position at or after `from` that holds `b`; the length of `s`
/// where there is none.
pub fn find_byte(s: &[u8], b: u8, from: usize) -> (r: usize)
    ensures
        r == index_of(s@, b, from as int),
{
    let mut i: usize = from;
    while i < s.len() && s[i] != b
        invariant
            index_of(s@, b, from as int) == index_of(s@, b, i as int),
        decreases s.len() - i,
    {
        i += 1;
    }
    i
}

/// The end of the run of whitespace that starts at `from`.
pub fn skip_spaces(s: &[u8], from: usize) -> (r: usize)
    ensures
        r == spaces_end(s@, from as int),
{
    let mut i: usize = from;
    while i < s.len() && byte_is_space(s[i])
        invariant
            spaces_end(s@, from as int) == spaces_end(s@, i as int),
        decreases s.len() - i,
    {
        i += 1;
    }
    i
}

/// The end of the run of non-whitespace bytes that starts at `from`.
pub fn skip_word(s: &[u8], from: usize) -> (r: usize)
    ensures
        r == word_end(s@, from as int),
{
    let mut i: usize = from;
    while i < s.len() && !byte_is_space(s[i])
        invariant
            word_end(s@, from as int) == word_end(s@, i as int),
        decreases s.len() - i,
    {
        i += 1;
    }
    i
}

/// A copy of `s` without its leading and trailing whitespace.
pub fn trim(s: &[u8]) -> (r: Vec<u8>)
    ensures
        r@ == trimmed(s@),
{
    let a: usize = skip_spaces(s, 0);
    let mut b: usize = s.len();
    while 0 < b && byte_is_space(s[b - 1])
        invariant
            b <= s@.len(),
            spaces_start(s@, s@.len() as int) == spaces_start(s@, b as int),
        decreases b,
    {
        b -= 1;
    }
    if a < b {
        copy_range(s, a, b)
    } else {
        Vec::new()
    }
}

/// A copy of `s` without its trailing whitespace.
pub fn trim_end(s: &[u8]) -> (r: Vec<u8>)
    ensures
        r@ == trimmed_end(s@),
{
    let mut b: usize = s.len();
    while 0 < b && byte_is_space(s[b - 1])
        invariant
            b <= s@.len(),
            spaces_start(s@, s@.len() as int) == spaces_start(s@, b as int),
        decreases b,
    {
        b -= 1;
    }
    copy_range(s, 0, b)
}

/// The whitespace-delimited tokens of `s`, in order.
pub fn split_tokens(s: &[u8]) -> (r: Vec<Vec<u8>>)
    ensures
        views(r@) == tokens(s@),
{
    let mut out: Vec<Vec<u8>> = Vec::new();
    let mut i: usize = 0;
    loop
        invariant
            i <= s@.len(),
            tokens(s@) == views(out@) + tokens_from(s@, i as int),
        ensures
            views(out@) == tokens(s@),
        decreases s@.len() - i,
    {
        let a: usize = skip_spaces(s, i);
        let b: usize = skip_word(s, a);
        proof {
            lemma_spaces_end(s@, i as int);
            lemma_word_end(s@, a as int);
        }
        if a >= b {
            assert(tokens_from(s@, i as int) =~= Seq::<Seq<u8>>::empty());
            assert(views(out@) + Seq::<Seq<u8>>::empty() =~= views(out@));
            break;
        }
        let word = copy_range(s, a, b);
        let ghost before = views(out@);
        out.push(word);
        assert(views(out@) =~= before + seq![s@.subrange(a as int, b as int)]);
        assert(before + (seq![s@.subrange(a as int, b as int)] + tokens_from(s@, b as int))
            =~= views(out@) + tokens_from(s@, b as int));
        i = b;
    }
    out
}

} // verus!
