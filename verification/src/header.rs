//! The format block: the first lines of a document, which name its dialect.
use crate::{Storage, Version};
use crate::lexical::{
    byte_at, end_of_line, gap_at, has_at, lemma_gap_bounds, lemma_line_end_bounds,
    lemma_tag_line_bounds, line_end, literal, outcome, reached, tag_line, tag_line_at, whitespace,
    Failure, Fault, ParseError,
};
use crate::words::lemma_words_not_empty;
use vstd::prelude::*;
use vstd::string::StringSliceAdditionalSpecFns;

verus! {

/// The dialect that a header names: a version of the format and how the body is stored.
#[derive(Debug, Copy, Clone, PartialEq, Eq)]
pub enum MshVersion {
    AsciiV22,
    AsciiV41,
    BinaryLeV22,
    BinaryLeV41,
}

impl DeepView for MshVersion {
    type V = MshVersion;

    open spec fn deep_view(&self) -> MshVersion {
        *self
    }
}

impl MshVersion {
    /// The dialect of a version and a storage flag.
    pub open spec fn of(version: Version, binary: bool) -> MshVersion {
        match (version, binary) {
            (Version::V22, false) => MshVersion::AsciiV22,
            (Version::V22, true) => MshVersion::BinaryLeV22,
            (Version::V41, false) => MshVersion::AsciiV41,
            (Version::V41, true) => MshVersion::BinaryLeV41,
        }
    }

    /// The version of the format.
    pub open spec fn spec_version(self) -> Version {
        match self {
            MshVersion::AsciiV22 | MshVersion::BinaryLeV22 => Version::V22,
            MshVersion::AsciiV41 | MshVersion::BinaryLeV41 => Version::V41,
        }
    }

    /// How the body is stored.
    pub open spec fn spec_storage(self) -> Storage {
        match self {
            MshVersion::AsciiV22 | MshVersion::AsciiV41 => Storage::Ascii,
            MshVersion::BinaryLeV22 | MshVersion::BinaryLeV41 => Storage::BinaryLe,
        }
    }

    /// The version of the format.
    #[verifier::when_used_as_spec(spec_version)]
    pub fn version(self) -> (v: Version)
        ensures
            v == self.spec_version(),
    {
        match self {
            MshVersion::AsciiV22 | MshVersion::BinaryLeV22 => Version::V22,
            MshVersion::AsciiV41 | MshVersion::BinaryLeV41 => Version::V41,
        }
    }

    /// How the body is stored.
    #[verifier::when_used_as_spec(spec_storage)]
    pub fn storage(self) -> (st: Storage)
        ensures
            st == self.spec_storage(),
    {
        match self {
            MshVersion::AsciiV22 | MshVersion::AsciiV41 => Storage::Ascii,
            MshVersion::BinaryLeV22 | MshVersion::BinaryLeV41 => Storage::BinaryLe,
        }
    }
}

/// Reads the line that opens the format block.
pub open spec fn format_header_at(s: Seq<u8>, pos: int) -> Result<int, Failure> {
    tag_line_at(s, pos, "$MeshFormat".spec_bytes())
}

/// Reads the line that closes the format block.
pub open spec fn format_footer_at(s: Seq<u8>, pos: int) -> Result<int, Failure> {
    tag_line_at(s, pos, "$EndMeshFormat".spec_bytes())
}

/// Reads the version token, `2.2` or `4.1`.
pub open spec fn version_at(s: Seq<u8>, pos: int) -> Result<(int, Version), Failure> {
    if has_at(s, pos, "2.2".spec_bytes()) {
        Ok((pos + "2.2".spec_bytes().len(), Version::V22))
    } else if has_at(s, pos, "4.1".spec_bytes()) {
        Ok((pos + "4.1".spec_bytes().len(), Version::V41))
    } else {
        Err(Failure { fault: Fault::Version, at: pos })
    }
}

/// Reads the storage flag: `0` for text, `1` for binary.
pub open spec fn storage_flag_at(s: Seq<u8>, pos: int) -> Result<(int, bool), Failure> {
    if byte_at(s, pos) == Some(0x30u8) {
        Ok((pos + 1, false))
    } else if byte_at(s, pos) == Some(0x31u8) {
        Ok((pos + 1, true))
    } else {
        Err(Failure { fault: Fault::Storage, at: pos })
    }
}

/// Reads the width of `size_t`: `8` is taken, `4` is known and refused, all else is no width.
pub open spec fn size_width_at(s: Seq<u8>, pos: int) -> Result<int, Failure> {
    if byte_at(s, pos) == Some(0x38u8) {
        Ok(pos + 1)
    } else if byte_at(s, pos) == Some(0x34u8) {
        Err(Failure { fault: Fault::NarrowSize, at: pos })
    } else {
        Err(Failure { fault: Fault::SizeWidth, at: pos })
    }
}

/// Reads the line of the format block that names the dialect: version, storage flag and width,
/// parted by spaces or tabs.
pub open spec fn format_line_at(s: Seq<u8>, pos: int) -> Result<(int, MshVersion), Failure> {
    match version_at(s, pos) {
        Err(e) => Err(e),
        Ok((p1, version)) => match gap_at(s, p1) {
            Err(e) => Err(e),
            Ok(p2) => match storage_flag_at(s, p2) {
                Err(e) => Err(e),
                Ok((p3, binary)) => match gap_at(s, p3) {
                    Err(e) => Err(e),
                    Ok(p4) => match size_width_at(s, p4) {
                        Err(e) => Err(e),
                        Ok(p5) => match line_end(s, p5) {
                            Err(e) => Err(e),
                            Ok(p6) => Ok((p6, MshVersion::of(version, binary))),
                        },
                    },
                },
            },
        },
    }
}

/// The four bytes that a little-endian writer leaves for the number one.
pub open spec fn one_le() -> Seq<u8> {
    seq![1u8, 0u8, 0u8, 0u8]
}

/// The four bytes that a big-endian writer leaves for the number one.
pub open spec fn one_be() -> Seq<u8> {
    seq![0u8, 0u8, 0u8, 1u8]
}

/// Reads the line that a binary header holds to show its byte order: the number one in four
/// raw bytes. Little-endian is taken; big-endian is known and refused; all else is corrupt.
pub open spec fn marker_line_at(s: Seq<u8>, pos: int) -> Result<int, Failure> {
    if has_at(s, pos, one_le()) {
        line_end(s, pos + 4)
    } else if has_at(s, pos, one_be()) {
        Err(Failure { fault: Fault::BigEndian, at: pos })
    } else {
        Err(Failure { fault: Fault::Endianness, at: pos })
    }
}

/// Reads a format block and names its dialect.
pub open spec fn header_at(s: Seq<u8>, pos: int) -> Result<(int, MshVersion), Failure> {
    match format_header_at(s, pos) {
        Err(e) => Err(e),
        Ok(p1) => match format_line_at(s, p1) {
            Err(e) => Err(e),
            Ok((p2, dialect)) => {
                let marked = if dialect.spec_storage() == Storage::Ascii {
                    Ok(p2)
                } else {
                    marker_line_at(s, p2)
                };
                match marked {
                    Err(e) => Err(e),
                    Ok(p3) => match format_footer_at(s, p3) {
                        Err(e) => Err(e),
                        Ok(p4) => Ok((p4, dialect)),
                    },
                }
            },
        },
    }
}

/// Reads a format block that has to name `dialect`.
pub open spec fn dialect_header_at(s: Seq<u8>, pos: int, dialect: MshVersion) -> Result<
    (int, MshVersion),
    Failure,
> {
    match header_at(s, pos) {
        Err(e) => Err(e),
        Ok((p, found)) => if found == dialect {
            Ok((p, found))
        } else {
            Err(Failure { fault: Fault::Dialect, at: pos })
        },
    }
}

/// Reads the line that opens the format block.
pub fn format_header(input: &[u8], pos: usize) -> (r: Result<usize, ParseError>)
    ensures
        reached(r) == format_header_at(input@, pos as int),
{
    tag_line(input, pos, "$MeshFormat".as_bytes())
}

/// Reads the line that closes the format block.
pub fn format_footer(input: &[u8], pos: usize) -> (r: Result<usize, ParseError>)
    ensures
        reached(r) == format_footer_at(input@, pos as int),
{
    tag_line(input, pos, "$EndMeshFormat".as_bytes())
}

/// Reads the version token.
pub fn parse_version(input: &[u8], pos: usize) -> (r: Result<(usize, Version), ParseError>)
    ensures
        outcome(r) == version_at(input@, pos as int),
{
    match literal(input, pos, "2.2".as_bytes()) {
        Ok(p) => Ok((p, Version::V22)),
        Err(_) => match literal(input, pos, "4.1".as_bytes()) {
            Ok(p) => Ok((p, Version::V41)),
            Err(_) => Err(ParseError { fault: Fault::Version, at: pos }),
        },
    }
}

/// Reads the line of the format block that names the dialect.
pub fn parse_format_line(input: &[u8], pos: usize) -> (r: Result<(usize, MshVersion), ParseError>)
    ensures
        outcome(r) == format_line_at(input@, pos as int),
{
    let (p1, version) = parse_version(input, pos)?;
    let p2 = whitespace(input, p1)?;
    if p2 >= input.len() {
        return Err(ParseError { fault: Fault::Storage, at: p2 });
    }
    let binary = if input[p2] == 0x30 {
        false
    } else if input[p2] == 0x31 {
        true
    } else {
        return Err(ParseError { fault: Fault::Storage, at: p2 });
    };
    let p4 = whitespace(input, p2 + 1)?;
    if p4 >= input.len() {
        return Err(ParseError { fault: Fault::SizeWidth, at: p4 });
    }
    if input[p4] == 0x34 {
        return Err(ParseError { fault: Fault::NarrowSize, at: p4 });
    }
    if input[p4] != 0x38 {
        return Err(ParseError { fault: Fault::SizeWidth, at: p4 });
    }
    let p6 = end_of_line(input, p4 + 1)?;
    let dialect = match (version, binary) {
        (Version::V22, false) => MshVersion::AsciiV22,
        (Version::V22, true) => MshVersion::BinaryLeV22,
        (Version::V41, false) => MshVersion::AsciiV41,
        (Version::V41, true) => MshVersion::BinaryLeV41,
    };
    Ok((p6, dialect))
}

/// Reads the byte-order line of a binary header.
pub fn parse_marker_line(input: &[u8], pos: usize) -> (r: Result<usize, ParseError>)
    ensures
        reached(r) == marker_line_at(input@, pos as int),
{
    if pos > input.len() || input.len() - pos < 4 {
        return Err(ParseError { fault: Fault::Endianness, at: pos });
    }
    let b0: u8 = input[pos];
    let b1: u8 = input[pos + 1];
    let b2: u8 = input[pos + 2];
    let b3: u8 = input[pos + 3];
    proof {
        let four = input@.subrange(pos as int, pos + 4);
        assert(four =~= seq![b0, b1, b2, b3]);
        assert(one_le()[0] == 1 && one_le()[1] == 0 && one_le()[2] == 0 && one_le()[3] == 0);
        assert(one_be()[0] == 0 && one_be()[1] == 0 && one_be()[2] == 0 && one_be()[3] == 1);
        assert(four[0] == b0 && four[1] == b1 && four[2] == b2 && four[3] == b3);
    }
    if b0 == 1 && b1 == 0 && b2 == 0 && b3 == 0 {
        end_of_line(input, pos + 4)
    } else if b0 == 0 && b1 == 0 && b2 == 0 && b3 == 1 {
        Err(ParseError { fault: Fault::BigEndian, at: pos })
    } else {
        Err(ParseError { fault: Fault::Endianness, at: pos })
    }
}

/// Reads a format block and names its dialect.
pub fn msh_header(input: &[u8], pos: usize) -> (r: Result<(usize, MshVersion), ParseError>)
    ensures
        outcome(r) == header_at(input@, pos as int),
{
    let p1 = format_header(input, pos)?;
    let (p2, dialect) = parse_format_line(input, p1)?;
    let p3 = match dialect {
        MshVersion::AsciiV22 | MshVersion::AsciiV41 => p2,
        MshVersion::BinaryLeV22 | MshVersion::BinaryLeV41 => parse_marker_line(input, p2)?,
    };
    let p4 = format_footer(input, p3)?;
    Ok((p4, dialect))
}

/// Reads the format block of a text document of version 2.2.
pub fn msh2_ascii_header(input: &[u8], pos: usize) -> (r: Result<(usize, MshVersion), ParseError>)
    ensures
        outcome(r) == dialect_header_at(input@, pos as int, MshVersion::AsciiV22),
{
    match msh_header(input, pos)? {
        (p, MshVersion::AsciiV22) => Ok((p, MshVersion::AsciiV22)),
        _ => Err(ParseError { fault: Fault::Dialect, at: pos }),
    }
}

/// Reads the format block of a text document of version 4.1.
pub fn msh4_ascii_header(input: &[u8], pos: usize) -> (r: Result<(usize, MshVersion), ParseError>)
    ensures
        outcome(r) == dialect_header_at(input@, pos as int, MshVersion::AsciiV41),
{
    match msh_header(input, pos)? {
        (p, MshVersion::AsciiV41) => Ok((p, MshVersion::AsciiV41)),
        _ => Err(ParseError { fault: Fault::Dialect, at: pos }),
    }
}

/// A format block ends behind its start and inside the input.
pub proof fn lemma_header_bounds(s: Seq<u8>, pos: int)
    ensures
        header_at(s, pos) matches Ok((p, _)) ==> 0 <= pos < p <= s.len(),
{
    lemma_words_not_empty();
    lemma_tag_line_bounds(s, pos, "$MeshFormat".spec_bytes());
    if let Ok(p1) = format_header_at(s, pos) {
        if let Ok((p2, dialect)) = format_line_at(s, p1) {
            lemma_format_line_bounds(s, p1);
            if dialect.spec_storage() == Storage::Ascii {
                lemma_tag_line_bounds(s, p2, "$EndMeshFormat".spec_bytes());
            } else if let Ok(p3) = marker_line_at(s, p2) {
                lemma_line_end_bounds(s, p2 + 4);
                lemma_tag_line_bounds(s, p3, "$EndMeshFormat".spec_bytes());
            }
        }
    }
}

/// The line that names the dialect ends behind its start and inside the input.
pub proof fn lemma_format_line_bounds(s: Seq<u8>, pos: int)
    ensures
        format_line_at(s, pos) matches Ok((p, _)) ==> 0 <= pos < p <= s.len(),
{
    if let Ok((p1, _)) = version_at(s, pos) {
        lemma_gap_bounds(s, p1);
        if let Ok(p2) = gap_at(s, p1) {
            lemma_gap_bounds(s, p2 + 1);
            if let Ok(p4) = gap_at(s, p2 + 1) {
                lemma_line_end_bounds(s, p4 + 1);
            }
        }
    }
}

} // verus!
