//! Bytes, positions and the smallest pieces of the grammar.
//!
//! Every recognizer reads `input` from a position and says where it stopped. A position at or
//! behind the end of the input reads as the end of the input.
use vstd::utf8::{decode_utf8, is_ascii_chars, is_ascii_chars_encode_utf8, valid_utf8};
use vstd::prelude::*;
use vstd::string::StringSliceAdditionalSpecFns;

verus! {

/// Why a piece of input was refused.
#[derive(Debug, Copy, Clone, PartialEq, Eq)]
pub enum Fault {
    /// A fixed word of the format is not at this place.
    Literal,
    /// A line goes on where it has to end.
    LineEnd,
    /// Two fields are not parted by a space or a tab.
    Space,
    /// A decimal number has to start here, and no digit does.
    Digit,
    /// A decimal number does not fit in 64 bits.
    Overflow,
    /// A field is not a floating-point number.
    Number,
    /// The header names no version that is known.
    Version,
    /// The header's storage flag is neither `0` nor `1`.
    Storage,
    /// The header's `size_t` width is neither `4` nor `8`.
    SizeWidth,
    /// The header asks for a `size_t` of 4 bytes, which nothing here decodes.
    NarrowSize,
    /// The binary marker says big-endian, which nothing here decodes.
    BigEndian,
    /// The binary marker is neither byte order's encoding of one.
    Endianness,
    /// The header is sound and names another dialect than the one asked for.
    Dialect,
    /// An element's type label names no shape.
    ElementType,
    /// A physical group's dimension is not one of the digits 0 to 3.
    Dimension,
    /// A name does not open, or does not close on its line, with a double quote.
    Quote,
    /// A name is not UTF-8.
    Utf8,
    /// A section that is not understood has no closing line.
    Unclosed,
}

/// A refusal, and the position of the byte that caused it.
#[derive(Debug, Copy, Clone, PartialEq, Eq)]
pub struct ParseError {
    pub fault: Fault,
    pub at: usize,
}

/// A refusal, as mathematical values.
pub struct Failure {
    pub fault: Fault,
    pub at: int,
}

impl View for ParseError {
    type V = Failure;

    open spec fn view(&self) -> Failure {
        Failure { fault: self.fault, at: self.at as int }
    }
}

/// What a recognizer without a value gives: the position behind what it read.
pub open spec fn reached(r: Result<usize, ParseError>) -> Result<int, Failure> {
    match r {
        Ok(next) => Ok(next as int),
        Err(e) => Err(e@),
    }
}

/// What a decoder gives: the position behind what it read, and the model of what it built.
pub open spec fn outcome<T: DeepView>(r: Result<(usize, T), ParseError>) -> Result<
    (int, T::V),
    Failure,
> {
    match r {
        Ok((next, value)) => Ok((next as int, value.deep_view())),
        Err(e) => Err(e@),
    }
}

/// The byte at position `i`, where the input has one.
pub open spec fn byte_at(s: Seq<u8>, i: int) -> Option<u8> {
    if 0 <= i < s.len() {
        Some(s[i])
    } else {
        None
    }
}

/// Spaces and tabs.
pub open spec fn hspace() -> spec_fn(u8) -> bool {
    |b: u8| b == 0x20 || b == 0x09
}

/// Decimal digits.
pub open spec fn digit() -> spec_fn(u8) -> bool {
    |b: u8| 0x30 <= b <= 0x39
}

/// Bytes that can stand in a field: all but spaces, tabs, carriage returns and line feeds.
pub open spec fn solid() -> spec_fn(u8) -> bool {
    |b: u8| !(b == 0x20 || b == 0x09 || b == 0x0d || b == 0x0a)
}

/// Bytes that can stand in a quoted name: all but the double quote and the two line-break bytes.
pub open spec fn name_byte() -> spec_fn(u8) -> bool {
    |b: u8| !(b == 0x22 || b == 0x0d || b == 0x0a)
}

/// Where the longest run of bytes of `class` that starts at `i` ends.
pub open spec fn run_end(s: Seq<u8>, i: int, class: spec_fn(u8) -> bool) -> int
    decreases s.len() - i,
{
    if 0 <= i < s.len() && class(s[i]) {
        run_end(s, i + 1, class)
    } else {
        i
    }
}

/// A run ends at the first byte outside its class, or at the end of the input.
pub proof fn lemma_run_end(s: Seq<u8>, i: int, class: spec_fn(u8) -> bool)
    ensures
        i <= run_end(s, i, class),
        0 <= i <= s.len() ==> run_end(s, i, class) <= s.len(),
        forall|j: int| i <= j < run_end(s, i, class) ==> 0 <= j < s.len() && class(#[trigger] s[j]),
        byte_at(s, run_end(s, i, class)) matches Some(b) ==> !class(b),
    decreases s.len() - i,
{
    if 0 <= i < s.len() && class(s[i]) {
        lemma_run_end(s, i + 1, class);
    }
}

/// The position `e` is where the run from `i` ends, if the bytes before it are of the class and
/// the byte at it is not.
pub proof fn lemma_run_end_is(s: Seq<u8>, i: int, e: int, class: spec_fn(u8) -> bool)
    requires
        0 <= i <= e <= s.len(),
        forall|j: int| i <= j < e ==> class(#[trigger] s[j]),
        byte_at(s, e) matches Some(b) ==> !class(b),
    ensures
        run_end(s, i, class) == e,
    decreases e - i,
{
    if i < e {
        lemma_run_end_is(s, i + 1, e, class);
    }
}

/// The input holds `word` at `pos`.
pub open spec fn has_at(s: Seq<u8>, pos: int, word: Seq<u8>) -> bool {
    &&& 0 <= pos
    &&& pos + word.len() <= s.len()
    &&& s.subrange(pos, pos + word.len()) == word
}

/// Reads the fixed word `word`.
pub open spec fn literal_at(s: Seq<u8>, pos: int, word: Seq<u8>) -> Result<int, Failure> {
    if has_at(s, pos, word) {
        Ok(pos + word.len())
    } else {
        Err(Failure { fault: Fault::Literal, at: pos })
    }
}

/// Reads one tab.
pub open spec fn tab_at(s: Seq<u8>, pos: int) -> Result<int, Failure> {
    if byte_at(s, pos) == Some(0x09u8) {
        Ok(pos + 1)
    } else {
        Err(Failure { fault: Fault::Literal, at: pos })
    }
}

/// Reads the spaces and tabs that part two fields: one at least.
pub open spec fn gap_at(s: Seq<u8>, pos: int) -> Result<int, Failure> {
    let end = run_end(s, pos, hspace());
    if end == pos {
        Err(Failure { fault: Fault::Space, at: pos })
    } else {
        Ok(end)
    }
}

/// Reads the end of a line: spaces and tabs, then a line feed, a carriage return with a line
/// feed, or the end of the input.
pub open spec fn line_end(s: Seq<u8>, pos: int) -> Result<int, Failure> {
    let p = run_end(s, pos, hspace());
    if byte_at(s, p) is None {
        Ok(p)
    } else if byte_at(s, p) == Some(0x0au8) {
        Ok(p + 1)
    } else if byte_at(s, p) == Some(0x0du8) && byte_at(s, p + 1) == Some(0x0au8) {
        Ok(p + 2)
    } else {
        Err(Failure { fault: Fault::LineEnd, at: p })
    }
}

/// A line end stops at or behind its start, and inside the input where the start is.
pub proof fn lemma_line_end_bounds(s: Seq<u8>, pos: int)
    ensures
        line_end(s, pos) matches Ok(p) ==> pos <= p && (0 <= pos <= s.len() ==> p <= s.len()),
{
    lemma_run_end(s, pos, hspace());
}

/// A gap is not empty and lies inside the input.
pub proof fn lemma_gap_bounds(s: Seq<u8>, pos: int)
    ensures
        gap_at(s, pos) matches Ok(p) ==> 0 <= pos < p <= s.len(),
{
    lemma_run_end(s, pos, hspace());
}

/// Skips spaces and tabs, of which there may be none.
pub fn sp(input: &[u8], pos: usize) -> (next: usize)
    ensures
        next == run_end(input@, pos as int, hspace()),
        pos <= next,
        pos <= input@.len() ==> next <= input@.len(),
{
    let mut i: usize = pos;
    while i < input.len() && (input[i] == 0x20 || input[i] == 0x09)
        invariant
            pos <= i,
            pos <= input@.len() ==> i <= input@.len(),
            run_end(input@, pos as int, hspace()) == run_end(input@, i as int, hspace()),
        decreases input@.len() - i,
    {
        i += 1;
    }
    i
}

/// Where the field that starts at `pos` ends: at the next space, tab or line break.
pub fn field_end(input: &[u8], pos: usize) -> (next: usize)
    ensures
        next == run_end(input@, pos as int, solid()),
        pos <= next,
        pos <= input@.len() ==> next <= input@.len(),
{
    let mut i: usize = pos;
    while i < input.len() && !(input[i] == 0x20 || input[i] == 0x09 || input[i] == 0x0d || input[i]
        == 0x0a)
        invariant
            pos <= i,
            pos <= input@.len() ==> i <= input@.len(),
            run_end(input@, pos as int, solid()) == run_end(input@, i as int, solid()),
        decreases input@.len() - i,
    {
        i += 1;
    }
    i
}

/// Where the digits that start at `pos` end.
pub fn digits_end(input: &[u8], pos: usize) -> (next: usize)
    ensures
        next == run_end(input@, pos as int, digit()),
        pos <= next,
        pos <= input@.len() ==> next <= input@.len(),
{
    let mut i: usize = pos;
    while i < input.len() && 0x30 <= input[i] && input[i] <= 0x39
        invariant
            pos <= i,
            pos <= input@.len() ==> i <= input@.len(),
            run_end(input@, pos as int, digit()) == run_end(input@, i as int, digit()),
        decreases input@.len() - i,
    {
        i += 1;
    }
    i
}

/// Where the bytes of a name that start at `pos` end: at the next double quote or line break.
pub fn name_end(input: &[u8], pos: usize) -> (next: usize)
    ensures
        next == run_end(input@, pos as int, name_byte()),
        pos <= next,
        pos <= input@.len() ==> next <= input@.len(),
{
    let mut i: usize = pos;
    while i < input.len() && !(input[i] == 0x22 || input[i] == 0x0d || input[i] == 0x0a)
        invariant
            pos <= i,
            pos <= input@.len() ==> i <= input@.len(),
            run_end(input@, pos as int, name_byte()) == run_end(input@, i as int, name_byte()),
        decreases input@.len() - i,
    {
        i += 1;
    }
    i
}

/// Reads one tab.
pub fn tab(input: &[u8], pos: usize) -> (r: Result<usize, ParseError>)
    ensures
        reached(r) == tab_at(input@, pos as int),
{
    if pos < input.len() && input[pos] == 0x09 {
        Ok(pos + 1)
    } else {
        Err(ParseError { fault: Fault::Literal, at: pos })
    }
}

/// Reads the spaces and tabs between two fields.
pub fn whitespace(input: &[u8], pos: usize) -> (r: Result<usize, ParseError>)
    ensures
        reached(r) == gap_at(input@, pos as int),
{
    let next = sp(input, pos);
    if next == pos {
        Err(ParseError { fault: Fault::Space, at: pos })
    } else {
        Ok(next)
    }
}

/// Reads the end of a line.
pub fn end_of_line(input: &[u8], pos: usize) -> (r: Result<usize, ParseError>)
    ensures
        reached(r) == line_end(input@, pos as int),
{
    let p = sp(input, pos);
    if p >= input.len() {
        Ok(p)
    } else if input[p] == 0x0a {
        Ok(p + 1)
    } else if input[p] == 0x0d && p + 1 < input.len() && input[p + 1] == 0x0a {
        Ok(p + 2)
    } else {
        Err(ParseError { fault: Fault::LineEnd, at: p })
    }
}

/// Reads the fixed word `word`.
pub fn literal(input: &[u8], pos: usize, w: &[u8]) -> (r: Result<usize, ParseError>)
    ensures
        reached(r) == literal_at(input@, pos as int, w@),
{
    if pos > input.len() || w.len() > input.len() - pos {
        return Err(ParseError { fault: Fault::Literal, at: pos });
    }
    let mut i: usize = 0;
    while i < w.len()
        invariant
            i <= w@.len(),
            pos + w@.len() <= input@.len() <= usize::MAX,
            forall|j: int| 0 <= j < i ==> input@[pos + j] == w@[j],
        decreases w@.len() - i,
    {
        if input[pos + i] != w[i] {
            assert(input@.subrange(pos as int, pos + w@.len())[i as int] == input@[pos + i]);
            return Err(ParseError { fault: Fault::Literal, at: pos });
        }
        i += 1;
    }
    assert(input@.subrange(pos as int, pos + w@.len()) =~= w@);
    Ok(pos + w.len())
}

/// Whether the input holds `word` at `pos`.
pub fn starts_with(input: &[u8], pos: usize, word: &[u8]) -> (b: bool)
    ensures
        b == has_at(input@, pos as int, word@),
{
    literal(input, pos, word).is_ok()
}

/// The bytes of a word of ASCII characters are its characters.
pub proof fn lemma_word_bytes(word: &str)
    requires
        is_ascii_chars(word@),
    ensures
        word.spec_bytes().len() == word@.len(),
        forall|i: int| 0 <= i < word@.len() ==> #[trigger] word.spec_bytes()[i] == word@[i] as u8,
{
    is_ascii_chars_encode_utf8(word@);
}

/// A line that holds a word ends behind its start and inside the input.
pub proof fn lemma_tag_line_bounds(s: Seq<u8>, pos: int, word: Seq<u8>)
    requires
        word.len() > 0,
    ensures
        tag_line_at(s, pos, word) matches Ok(p) ==> 0 <= pos < p <= s.len(),
{
    lemma_line_end_bounds(s, pos + word.len());
}

/// Whether two runs of bytes are the same.
pub fn same_bytes(a: &[u8], b: &[u8]) -> (same: bool)
    ensures
        same == (a@ == b@),
{
    if a.len() != b.len() {
        return false;
    }
    let mut i: usize = 0;
    while i < a.len()
        invariant
            i <= a@.len(),
            a@.len() == b@.len(),
            forall|j: int| 0 <= j < i ==> a@[j] == b@[j],
        decreases a@.len() - i,
    {
        if a[i] != b[i] {
            return false;
        }
        i += 1;
    }
    assert(a@ =~= b@);
    true
}

/// Appends `bytes` to `sink`.
pub fn append_bytes(sink: &mut Vec<u8>, bytes: &[u8])
    ensures
        final(sink)@ == old(sink)@ + bytes@,
{
    let mut i: usize = 0;
    while i < bytes.len()
        invariant
            i <= bytes@.len(),
            sink@ == old(sink)@ + bytes@.subrange(0, i as int),
        decreases bytes@.len() - i,
    {
        sink.push(bytes[i]);
        assert(sink@ =~= old(sink)@ + bytes@.subrange(0, i + 1));
        i += 1;
    }
    assert(bytes@.subrange(0, i as int) =~= bytes@);
}

/// Reads a line that holds the fixed word `word` and nothing else.
pub open spec fn tag_line_at(s: Seq<u8>, pos: int, word: Seq<u8>) -> Result<int, Failure> {
    match literal_at(s, pos, word) {
        Ok(p) => line_end(s, p),
        Err(e) => Err(e),
    }
}

/// Reads a line that holds the fixed word `word` and nothing else.
pub fn tag_line(input: &[u8], pos: usize, word: &[u8]) -> (r: Result<usize, ParseError>)
    ensures
        reached(r) == tag_line_at(input@, pos as int, word@),
{
    let p = literal(input, pos, word)?;
    end_of_line(input, p)
}

/// The text that the bytes `bytes` encode, if they are UTF-8. This is `String::from_utf8` of
/// `std`, of which the contract claims what its documentation says: it succeeds on UTF-8 and on
/// nothing else, and the text it gives is the one that the bytes encode.
#[verifier::external_body]
pub(crate) fn utf8_text(bytes: &[u8]) -> (r: Option<String>)
    ensures
        r is Some <==> valid_utf8(bytes@),
        r matches Some(text) ==> text@ == decode_utf8(bytes@),
{
    match String::from_utf8(bytes.to_vec()) {
        Ok(text) => Some(text),
        Err(_) => None,
    }
}

} // verus!
