//! The request head: the request line and the header lines of one request.
//!
//! Lines are kept exactly as they were read, line terminator included,
//! because the head is replayed to the upstream byte for byte. What is
//! parsed out of them (method, path, version, header names) is kept beside
//! the raw text and never replaces it.

use crate::text::{
    all_spaces, copy_range, find_byte, index_of, is_trimmed, lemma_index_of,
    lemma_index_of_unique, lemma_trimmed_end_of_padded, lemma_trimmed_of_padded,
    no_trailing_space, split_tokens, tokens, trim, trim_end, trimmed, trimmed_end, views, COLON,
    CR, LF,
};
use vstd::prelude::*;

verus! {

/// One header line: its name, and the line as it was read.
#[derive(Clone, PartialEq, Eq, Debug)]
pub struct Header {
    pub name: Vec<u8>,
    pub raw_line: Vec<u8>,
}

/// What a [`Header`] holds, as plain values.
pub struct HeaderView {
    pub name: Seq<u8>,
    pub raw_line: Seq<u8>,
}

impl View for Header {
    type V = HeaderView;

    open spec fn view(&self) -> HeaderView {
        HeaderView { name: self.name@, raw_line: self.raw_line@ }
    }
}

/// The head of one request.
#[derive(Clone, PartialEq, Eq, Debug)]
pub struct ParsedRequestHead {
    /// The request line as it was read.
    pub request_line: Vec<u8>,
    pub method: Vec<u8>,
    pub path: Vec<u8>,
    pub version: Vec<u8>,
    /// The header lines, in the order in which they were read.
    pub headers: Vec<Header>,
}

/// What a [`ParsedRequestHead`] holds, as plain values.
pub struct HeadView {
    pub request_line: Seq<u8>,
    pub method: Seq<u8>,
    pub path: Seq<u8>,
    pub version: Seq<u8>,
    pub headers: Seq<HeaderView>,
}

/// The views of a list of headers, in order.
pub open spec fn header_views(headers: Seq<Header>) -> Seq<HeaderView> {
    Seq::new(headers.len(), |i: int| headers[i]@)
}

impl View for ParsedRequestHead {
    type V = HeadView;

    open spec fn view(&self) -> HeadView {
        HeadView {
            request_line: self.request_line@,
            method: self.method@,
            path: self.path@,
            version: self.version@,
            headers: header_views(self.headers@),
        }
    }
}

/// `UNKNOWN_METHOD`, which stands for a method that the request line lacks.
pub open spec fn unknown_method() -> Seq<u8> {
    seq![
        0x55u8, 0x4e, 0x4b, 0x4e, 0x4f, 0x57, 0x4e, 0x5f, 0x4d, 0x45, 0x54, 0x48, 0x4f, 0x44,
    ]
}

/// `UNKNOWN_PATH`, which stands for a path that the request line lacks.
pub open spec fn unknown_path() -> Seq<u8> {
    seq![0x55u8, 0x4e, 0x4b, 0x4e, 0x4f, 0x57, 0x4e, 0x5f, 0x50, 0x41, 0x54, 0x48]
}

/// `UNKNOWN_VERSION`, which stands for a version that the request line lacks.
pub open spec fn unknown_version() -> Seq<u8> {
    seq![
        0x55u8, 0x4e, 0x4b, 0x4e, 0x4f, 0x57, 0x4e, 0x5f, 0x56, 0x45, 0x52, 0x53, 0x49, 0x4f, 0x4e,
    ]
}

/// The token at position `i`, or `placeholder` where there are too few.
pub open spec fn token_or(toks: Seq<Seq<u8>>, i: int, placeholder: Seq<u8>) -> Seq<u8> {
    if 0 <= i < toks.len() {
        toks[i]
    } else {
        placeholder
    }
}

/// The head that a request line alone gives: its first three tokens are
/// method, path and version, each replaced by its placeholder where the
/// line has too few tokens; tokens after the third are ignored.
pub open spec fn head_of_request_line(line: Seq<u8>) -> HeadView {
    HeadView {
        request_line: line,
        method: token_or(tokens(line), 0, unknown_method()),
        path: token_or(tokens(line), 1, unknown_path()),
        version: token_or(tokens(line), 2, unknown_version()),
        headers: Seq::empty(),
    }
}

/// Whether `line` has a colon.
pub open spec fn has_colon(line: Seq<u8>) -> bool {
    index_of(line, COLON, 0) < line.len()
}

/// The name of a header line: what stands before its first colon, without
/// the whitespace between it and the colon. Whitespace in front of the name
/// is part of the name, so an indented line never has the name of a line
/// that is not indented. A line without a colon has the empty name.
pub open spec fn header_name(line: Seq<u8>) -> Seq<u8> {
    if has_colon(line) {
        trimmed_end(line.subrange(0, index_of(line, COLON, 0)))
    } else {
        Seq::empty()
    }
}

/// The value of a header line: everything after its first colon, without
/// surrounding whitespace. A line without a colon has the empty value.
pub open spec fn header_value(line: Seq<u8>) -> Seq<u8> {
    if has_colon(line) {
        trimmed(line.subrange(index_of(line, COLON, 0) + 1, line.len() as int))
    } else {
        Seq::empty()
    }
}

/// The header that a line gives.
pub open spec fn header_of(line: Seq<u8>) -> HeaderView {
    HeaderView { name: header_name(line), raw_line: line }
}

/// Whether `line` is a whole line: whether it ends with a line feed. What a
/// read hands over without a line feed is the rest of a stream that ended
/// inside a line, or nothing at all.
pub open spec fn is_terminated(line: Seq<u8>) -> bool {
    line.len() > 0 && line.last() == LF
}

/// Whether `line` is the blank line that ends a head: a whole line that
/// holds nothing but carriage returns and its line feed.
pub open spec fn is_blank(line: Seq<u8>) -> bool {
    is_terminated(line) && forall|i: int| 0 <= i < line.len() ==> is_line_end(#[trigger] line[i])
}

/// Whether `b` is a carriage return or a line feed.
pub open spec fn is_line_end(b: u8) -> bool {
    b == CR || b == LF
}

/// The raw lines of `headers`, one after the other.
pub open spec fn concat_lines(headers: Seq<HeaderView>) -> Seq<u8>
    decreases headers.len(),
{
    if headers.len() == 0 {
        Seq::empty()
    } else {
        concat_lines(headers.drop_last()) + headers.last().raw_line
    }
}

/// The blank line that is sent behind a head: carriage return, line feed.
pub open spec fn blank_line() -> Seq<u8> {
    seq![CR, LF]
}

/// The bytes that replay a head: its request line and its header lines as
/// they were read, then a blank line.
pub open spec fn head_bytes(head: HeadView) -> Seq<u8> {
    head.request_line + concat_lines(head.headers) + blank_line()
}

/// `head` with one more header line at its end.
pub open spec fn with_header(head: HeadView, line: Seq<u8>) -> HeadView {
    HeadView {
        request_line: head.request_line,
        method: head.method,
        path: head.path,
        version: head.version,
        headers: head.headers.push(header_of(line)),
    }
}

/// A header's name and value come out the same whatever whitespace
/// surrounds its colon and its value: for a name without a colon that does
/// not end with whitespace, and a value that neither begins nor ends with
/// whitespace, the line made of the name, `pad_a`, a colon, `pad_b`, the
/// value and `pad_c` has that name and that value, whatever whitespace the
/// three pads hold.
pub proof fn lemma_header_padding(
    name: Seq<u8>,
    pad_a: Seq<u8>,
    pad_b: Seq<u8>,
    value: Seq<u8>,
    pad_c: Seq<u8>,
)
    requires
        index_of(name, COLON, 0) == name.len(),
        no_trailing_space(name),
        is_trimmed(value),
        all_spaces(pad_a),
        all_spaces(pad_b),
        all_spaces(pad_c),
    ensures
        header_name(name + pad_a + seq![COLON] + pad_b + value + pad_c) == name,
        header_value(name + pad_a + seq![COLON] + pad_b + value + pad_c) == value,
{
    let before = name + pad_a;
    let after = pad_b + value + pad_c;
    let line = name + pad_a + seq![COLON] + pad_b + value + pad_c;
    let c = before.len() as int;
    assert(line =~= before + seq![COLON] + after);
    assert(line[c] == COLON);
    assert forall|j: int| 0 <= j < c implies line[j] != COLON by {
        if j < name.len() {
            lemma_index_of(name, COLON, 0);
            assert(line[j] == name[j]);
        } else {
            assert(line[j] == pad_a[j - name.len()]);
        }
    }
    lemma_index_of_unique(line, COLON, 0, c);
    assert(line.subrange(0, c) =~= name + pad_a);
    assert(line.subrange(c + 1, line.len() as int) =~= after);
    lemma_trimmed_end_of_padded(name, pad_a);
    lemma_trimmed_of_padded(pad_b, value, pad_c);
}

/// The head that the request line `line` alone gives.
pub fn parse_request_line(line: Vec<u8>) -> (head: ParsedRequestHead)
    ensures
        head@ == head_of_request_line(line@),
{
    let toks: Vec<Vec<u8>> = split_tokens(line.as_slice());
    assert(views(toks@) == tokens(line@));
    let method: Vec<u8> = if toks.len() > 0 {
        assert(toks[0]@ == views(toks@)[0]);
        toks[0].clone()
    } else {
        vec![0x55u8, 0x4e, 0x4b, 0x4e, 0x4f, 0x57, 0x4e, 0x5f, 0x4d, 0x45, 0x54, 0x48, 0x4f, 0x44]
    };
    let path: Vec<u8> = if toks.len() > 1 {
        assert(toks[1]@ == views(toks@)[1]);
        toks[1].clone()
    } else {
        vec![0x55u8, 0x4e, 0x4b, 0x4e, 0x4f, 0x57, 0x4e, 0x5f, 0x50, 0x41, 0x54, 0x48]
    };
    let version: Vec<u8> = if toks.len() > 2 {
        assert(toks[2]@ == views(toks@)[2]);
        toks[2].clone()
    } else {
        vec![
            0x55u8, 0x4e, 0x4b, 0x4e, 0x4f, 0x57, 0x4e, 0x5f, 0x56, 0x45, 0x52, 0x53, 0x49, 0x4f,
            0x4e,
        ]
    };
    assert(method@ =~= token_or(tokens(line@), 0, unknown_method()));
    assert(path@ =~= token_or(tokens(line@), 1, unknown_path()));
    assert(version@ =~= token_or(tokens(line@), 2, unknown_version()));
    let head = ParsedRequestHead { request_line: line, method, path, version, headers: Vec::new() };
    assert(head@.headers =~= Seq::<HeaderView>::empty());
    head
}

/// The name of the header line `line`.
pub fn parse_header_name(line: &[u8]) -> (name: Vec<u8>)
    ensures
        name@ == header_name(line@),
{
    let c: usize = find_byte(line, COLON, 0);
    if c < line.len() {
        let before: Vec<u8> = copy_range(line, 0, c);
        trim_end(before.as_slice())
    } else {
        Vec::new()
    }
}

/// The value of the header line `line`.
pub fn parse_header_value(line: &[u8]) -> (value: Vec<u8>)
    ensures
        value@ == header_value(line@),
{
    let c: usize = find_byte(line, COLON, 0);
    if c < line.len() {
        let after: Vec<u8> = copy_range(line, c + 1, line.len());
        trim(after.as_slice())
    } else {
        Vec::new()
    }
}

/// The header that the line `line` gives.
pub fn parse_header(line: Vec<u8>) -> (header: Header)
    ensures
        header@ == header_of(line@),
{
    let name: Vec<u8> = parse_header_name(line.as_slice());
    Header { name, raw_line: line }
}

/// Whether `line` is a whole line: whether it ends with a line feed.
pub fn is_whole_line(line: &[u8]) -> (r: bool)
    ensures
        r == is_terminated(line@),
{
    line.len() > 0 && line[line.len() - 1] == LF
}

/// Whether `line` is the blank line that ends a head.
pub fn is_blank_line(line: &[u8]) -> (r: bool)
    ensures
        r == is_blank(line@),
{
    if !is_whole_line(line) {
        return false;
    }
    let mut i: usize = 0;
    while i < line.len()
        invariant
            i <= line@.len(),
            forall|j: int| 0 <= j < i ==> is_line_end(#[trigger] line@[j]),
        decreases line.len() - i,
    {
        if line[i] != CR && line[i] != LF {
            assert(!is_line_end(line@[i as int]));
            return false;
        }
        i += 1;
    }
    true
}

impl ParsedRequestHead {
    /// Adds the header line `line` behind those already in the head.
    pub fn push_header(&mut self, line: Vec<u8>)
        ensures
            final(self)@ == with_header(old(self)@, line@),
    {
        let header: Header = parse_header(line);
        self.headers.push(header);
        assert(final(self)@.headers =~= old(self)@.headers.push(header_of(line@)));
    }

    /// The bytes that replay the head to an upstream.
    pub fn to_bytes(&self) -> (bytes: Vec<u8>)
        ensures
            bytes@ == head_bytes(self@),
    {
        let mut bytes: Vec<u8> = self.request_line.clone();
        let mut i: usize = 0;
        while i < self.headers.len()
            invariant
                i <= self.headers@.len(),
                bytes@ == self.request_line@ + concat_lines(self@.headers.subrange(0, i as int)),
            decreases self.headers.len() - i,
        {
            bytes.extend_from_slice(self.headers[i].raw_line.as_slice());
            proof {
                let longer = self@.headers.subrange(0, i + 1);
                assert(longer.drop_last() =~= self@.headers.subrange(0, i as int));
                assert(longer.last().raw_line == self.headers[i as int].raw_line@);
                assert(bytes@ =~= self.request_line@ + concat_lines(longer));
            }
            i += 1;
        }
        assert(self@.headers.subrange(0, i as int) =~= self@.headers);
        bytes.push(CR);
        bytes.push(LF);
        assert(bytes@ =~= head_bytes(self@));
        bytes
    }
}

} // verus!
