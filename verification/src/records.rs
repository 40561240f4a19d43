//! The records of a text document of version 2.2: nodes, elements and physical groups, each
//! on a line of its own.
use crate::{Dim, EltModel, GroupModel, MeshElt, MeshShape, Node, PhysicalGroup, Tag};
use crate::decimal::{parse_u64, unsigned_at};
use crate::float::{parse_double, whole_double};
use crate::lexical::{
    byte_at, digit, digits_end, end_of_line, field_end, gap_at, lemma_gap_bounds,
    lemma_line_end_bounds, lemma_run_end, line_end, name_byte, name_end, outcome, run_end, solid,
    utf8_text, whitespace, Failure, Fault, ParseError,
};
use crate::parser::Warning;
use vstd::utf8::{decode_utf8, valid_utf8};
use vstd::prelude::*;
use vstd::slice::slice_subrange;

verus! {

/// Reads a coordinate: a field that is, as a whole, a floating-point number.
pub open spec fn coordinate_at(s: Seq<u8>, pos: int) -> Result<(int, u64), Failure> {
    let end = run_end(s, pos, solid());
    if end == pos {
        Err(Failure { fault: Fault::Number, at: pos })
    } else {
        match whole_double(s.subrange(pos, end)) {
            Some(bits) => Ok((end, bits)),
            None => Err(Failure { fault: Fault::Number, at: pos }),
        }
    }
}

/// Reads the gap before a field, then a coordinate.
pub open spec fn spaced_coordinate_at(s: Seq<u8>, pos: int) -> Result<(int, u64), Failure> {
    match gap_at(s, pos) {
        Ok(p) => coordinate_at(s, p),
        Err(e) => Err(e),
    }
}

/// Reads the gap before a field, then an unsigned number.
pub open spec fn spaced_unsigned_at(s: Seq<u8>, pos: int) -> Result<(int, u64), Failure> {
    match gap_at(s, pos) {
        Ok(p) => unsigned_at(s, p),
        Err(e) => Err(e),
    }
}

/// Reads a node record: a tag and three coordinates on one line.
pub open spec fn node_at(s: Seq<u8>, pos: int) -> Result<(int, Node), Failure> {
    match unsigned_at(s, pos) {
        Err(e) => Err(e),
        Ok((p1, tag)) => match spaced_coordinate_at(s, p1) {
            Err(e) => Err(e),
            Ok((p2, x)) => match spaced_coordinate_at(s, p2) {
                Err(e) => Err(e),
                Ok((p3, y)) => match spaced_coordinate_at(s, p3) {
                    Err(e) => Err(e),
                    Ok((p4, z)) => match line_end(s, p4) {
                        Err(e) => Err(e),
                        Ok(p5) => Ok((p5, Node { tag, x, y, z })),
                    },
                },
            },
        },
    }
}

/// Reads a coordinate.
pub fn parse_coordinate(input: &[u8], pos: usize) -> (r: Result<(usize, u64), ParseError>)
    ensures
        outcome(r) == coordinate_at(input@, pos as int),
{
    let end = field_end(input, pos);
    if end == pos {
        return Err(ParseError { fault: Fault::Number, at: pos });
    }
    match parse_double(slice_subrange(input, pos, end)) {
        Some(bits) => Ok((end, bits)),
        None => Err(ParseError { fault: Fault::Number, at: pos }),
    }
}

/// Reads a node record.
pub fn parse_node_msh2(input: &[u8], pos: usize) -> (r: Result<(usize, Node), ParseError>)
    ensures
        outcome(r) == node_at(input@, pos as int),
{
    let (p1, tag) = parse_u64(input, pos)?;
    let g1 = whitespace(input, p1)?;
    let (p2, x) = parse_coordinate(input, g1)?;
    let g2 = whitespace(input, p2)?;
    let (p3, y) = parse_coordinate(input, g2)?;
    let g3 = whitespace(input, p3)?;
    let (p4, z) = parse_coordinate(input, g3)?;
    let p5 = end_of_line(input, p4)?;
    Ok((p5, Node { tag, x, y, z }))
}

/// Reads the digit that names a dimension.
pub open spec fn dimension_at(s: Seq<u8>, pos: int) -> Result<(int, u8), Failure> {
    match byte_at(s, pos) {
        Some(b) => if 0x30 <= b <= 0x33 {
            Ok((pos + 1, (b - 0x30) as u8))
        } else {
            Err(Failure { fault: Fault::Dimension, at: pos })
        },
        None => Err(Failure { fault: Fault::Dimension, at: pos }),
    }
}

/// Reads the digit that names a dimension.
pub fn parse_dimension(input: &[u8], pos: usize) -> (r: Result<(usize, Dim), ParseError>)
    ensures
        outcome(r) == dimension_at(input@, pos as int),
{
    if pos < input.len() && 0x30 <= input[pos] && input[pos] <= 0x33 {
        Ok((pos + 1, Dim::from_u8_unchecked(input[pos] - 0x30)))
    } else {
        Err(ParseError { fault: Fault::Dimension, at: pos })
    }
}

/// Reads the type label of an element and names its shape.
pub open spec fn label_at(s: Seq<u8>, pos: int) -> Result<(int, MeshShape), Failure> {
    let end = run_end(s, pos, digit());
    if end == pos {
        Err(Failure { fault: Fault::Digit, at: pos })
    } else {
        match MeshShape::of_label(s.subrange(pos, end)) {
            Some(shape) => Ok((end, shape)),
            None => Err(Failure { fault: Fault::ElementType, at: pos }),
        }
    }
}

/// Reads the type label of an element.
pub fn parse_label(input: &[u8], pos: usize) -> (r: Result<(usize, MeshShape), ParseError>)
    ensures
        outcome(r) == label_at(input@, pos as int),
{
    let end = digits_end(input, pos);
    if end == pos {
        return Err(ParseError { fault: Fault::Digit, at: pos });
    }
    match MeshShape::from_label_bytes(slice_subrange(input, pos, end)) {
        Some(shape) => Ok((end, shape)),
        None => Err(ParseError { fault: Fault::ElementType, at: pos }),
    }
}

/// A result with `head` put before what was read.
pub open spec fn after<T>(head: Seq<T>, rest: Result<(int, Seq<T>), Failure>) -> Result<
    (int, Seq<T>),
    Failure,
> {
    match rest {
        Ok((p, tail)) => Ok((p, head + tail)),
        Err(e) => Err(e),
    }
}

/// Reads `count` unsigned numbers, each behind a gap.
pub open spec fn fields_at(s: Seq<u8>, pos: int, count: nat) -> Result<(int, Seq<u64>), Failure>
    decreases count,
{
    if count == 0 {
        Ok((pos, Seq::empty()))
    } else {
        match spaced_unsigned_at(s, pos) {
            Err(e) => Err(e),
            Ok((p, first)) => after(seq![first], fields_at(s, p, (count - 1) as nat)),
        }
    }
}

/// Reads `count` unsigned numbers, each behind a gap.
pub fn parse_fields(input: &[u8], pos: usize, count: u64) -> (r: Result<
    (usize, Vec<u64>),
    ParseError,
>)
    ensures
        match fields_at(input@, pos as int, count as nat) {
            Ok((p, fields)) => r matches Ok((next, got)) && next == p && got@ == fields
                && fields.len() == count,
            Err(e) => r matches Err(f) && f@ == e,
        },
{
    let mut got: Vec<u64> = Vec::new();
    let mut cur: usize = pos;
    let mut i: u64 = 0;
    while i < count
        invariant
            i <= count,
            got@.len() == i,
            fields_at(input@, pos as int, count as nat) == after(
                got@,
                fields_at(input@, cur as int, (count - i) as nat),
            ),
        decreases count - i,
    {
        let ghost before = got@;
        let g = match whitespace(input, cur) {
            Ok(g) => g,
            Err(e) => {
                return Err(e);
            },
        };
        let (p, value) = match parse_u64(input, g) {
            Ok(found) => found,
            Err(e) => {
                return Err(e);
            },
        };
        got.push(value);
        proof {
            let rest = fields_at(input@, p as int, (count - i - 1) as nat);
            if let Ok((q, tail)) = rest {
                assert(before + (seq![value] + tail) =~= got@ + tail);
            }
        }
        cur = p;
        i += 1;
    }
    assert(got@ + Seq::<u64>::empty() =~= got@);
    Ok((cur, got))
}

/// The tags that an element record declares: the first two, raw, and how many there were.
/// A raw tag of zero stands for no tag, and so does one that the record does not hold.
#[derive(Debug, Copy, Clone, PartialEq, Eq)]
pub struct EltInfo {
    pub physical_group: Tag,
    pub geometry: Tag,
    pub num_tags: u64,
}

impl DeepView for EltInfo {
    type V = EltInfo;

    open spec fn deep_view(&self) -> EltInfo {
        *self
    }
}

/// Reads the tags of an element record: their number, then as many numbers. The first is the
/// physical group, the second the geometry, and what follows is read and dropped.
pub open spec fn elt_info_at(s: Seq<u8>, pos: int) -> Result<(int, EltInfo), Failure> {
    match unsigned_at(s, pos) {
        Err(e) => Err(e),
        Ok((p, num_tags)) => match fields_at(s, p, num_tags as nat) {
            Err(e) => Err(e),
            Ok((q, tags)) => Ok(
                (
                    q,
                    EltInfo {
                        physical_group: if num_tags >= 1 {
                            tags[0]
                        } else {
                            0
                        },
                        geometry: if num_tags >= 2 {
                            tags[1]
                        } else {
                            0
                        },
                        num_tags,
                    },
                ),
            ),
        },
    }
}

/// Reads the tags of an element record.
pub fn parse_elt_info(input: &[u8], pos: usize) -> (r: Result<(usize, EltInfo), ParseError>)
    ensures
        outcome(r) == elt_info_at(input@, pos as int),
{
    let (p, num_tags) = parse_u64(input, pos)?;
    let (q, tags) = parse_fields(input, p, num_tags)?;
    let physical_group = if num_tags >= 1 {
        tags[0]
    } else {
        0
    };
    let geometry = if num_tags >= 2 {
        tags[1]
    } else {
        0
    };
    Ok((q, EltInfo { physical_group, geometry, num_tags }))
}

/// The tag that a raw tag stands for: zero stands for none.
pub open spec fn present(raw: Tag) -> Option<Tag> {
    if raw == 0 {
        None
    } else {
        Some(raw)
    }
}

/// What an element record holds: the element, and how many tags the record declared.
pub struct EltRecord {
    pub elt: EltModel,
    pub num_tags: u64,
}

impl EltRecord {
    /// What reading the record warns of: tags beyond the two that are kept.
    pub open spec fn warnings(self) -> Seq<Warning> {
        if self.num_tags > 2 {
            seq![Warning::ExtraTags { element: self.elt.tag, declared: self.num_tags }]
        } else {
            Seq::empty()
        }
    }
}

/// Reads the gap before a field, then the type label of an element.
pub open spec fn spaced_label_at(s: Seq<u8>, pos: int) -> Result<(int, MeshShape), Failure> {
    match gap_at(s, pos) {
        Ok(p) => label_at(s, p),
        Err(e) => Err(e),
    }
}

/// Reads the gap before a field, then the tags of an element.
pub open spec fn spaced_elt_info_at(s: Seq<u8>, pos: int) -> Result<(int, EltInfo), Failure> {
    match gap_at(s, pos) {
        Ok(p) => elt_info_at(s, p),
        Err(e) => Err(e),
    }
}

/// Reads an element record: the element's tag, its type label, its tags, and as many node tags
/// as the shape joins, on one line.
pub open spec fn element_at(s: Seq<u8>, pos: int) -> Result<(int, EltRecord), Failure> {
    match unsigned_at(s, pos) {
        Err(e) => Err(e),
        Ok((p1, tag)) => match spaced_label_at(s, p1) {
            Err(e) => Err(e),
            Ok((p2, ty)) => match spaced_elt_info_at(s, p2) {
                Err(e) => Err(e),
                Ok((p3, info)) => match fields_at(s, p3, ty.arity()) {
                    Err(e) => Err(e),
                    Ok((p4, nodes)) => match line_end(s, p4) {
                        Err(e) => Err(e),
                        Ok(p5) => Ok(
                            (
                                p5,
                                EltRecord {
                                    elt: EltModel {
                                        tag,
                                        ty,
                                        nodes,
                                        physical_group: present(info.physical_group),
                                        geometry: present(info.geometry),
                                    },
                                    num_tags: info.num_tags,
                                },
                            ),
                        ),
                    },
                },
            },
        },
    }
}

/// Reads an element record. Where the record declares more than two tags, a warning is put
/// behind those that `warnings` holds.
pub fn parse_element_msh2(input: &[u8], pos: usize, warnings: &mut Vec<Warning>) -> (r: Result<
    (usize, MeshElt),
    ParseError,
>)
    ensures
        match element_at(input@, pos as int) {
            Ok((p, record)) => r matches Ok((next, elt)) && next == p && elt@ == record.elt
                && elt@.wf() && final(warnings)@ == old(warnings)@ + record.warnings(),
            Err(e) => r matches Err(f) && f@ == e && final(warnings)@ == old(warnings)@,
        },
{
    let (p1, tag) = parse_u64(input, pos)?;
    let g1 = whitespace(input, p1)?;
    let (p2, ty) = parse_label(input, g1)?;
    let g2 = whitespace(input, p2)?;
    let (p3, info) = parse_elt_info(input, g2)?;
    let (p4, nodes) = parse_fields(input, p3, ty.num_nodes() as u64)?;
    let p5 = end_of_line(input, p4)?;
    if info.num_tags > 2 {
        warnings.push(Warning::ExtraTags { element: tag, declared: info.num_tags });
    }
    let physical_group = if info.physical_group != 0 {
        Some(info.physical_group)
    } else {
        None
    };
    let geometry = if info.geometry != 0 {
        Some(info.geometry)
    } else {
        None
    };
    proof {
        let record = element_at(input@, pos as int)->Ok_0.1;
        assert(old(warnings)@ + Seq::<Warning>::empty() =~= old(warnings)@);
        assert(warnings@ =~= old(warnings)@ + record.warnings());
    }
    Ok((p5, MeshElt { tag, ty, nodes, physical_group, geometry }))
}

/// Reads a name: what stands between a double quote and the next one, which has to be on the
/// same line. The bytes between the two are the name as they stand, and have to be UTF-8.
pub open spec fn name_at(s: Seq<u8>, pos: int) -> Result<(int, Seq<char>), Failure> {
    if byte_at(s, pos) != Some(0x22u8) {
        Err(Failure { fault: Fault::Quote, at: pos })
    } else {
        let end = run_end(s, pos + 1, name_byte());
        if byte_at(s, end) != Some(0x22u8) {
            Err(Failure { fault: Fault::Quote, at: end })
        } else if !valid_utf8(s.subrange(pos + 1, end)) {
            Err(Failure { fault: Fault::Utf8, at: pos + 1 })
        } else {
            Ok((end + 1, decode_utf8(s.subrange(pos + 1, end))))
        }
    }
}

/// Reads a name.
pub fn parse_name(input: &[u8], pos: usize) -> (r: Result<(usize, String), ParseError>)
    ensures
        outcome(r) == name_at(input@, pos as int),
{
    if pos >= input.len() || input[pos] != 0x22 {
        return Err(ParseError { fault: Fault::Quote, at: pos });
    }
    let end = name_end(input, pos + 1);
    if end >= input.len() || input[end] != 0x22 {
        return Err(ParseError { fault: Fault::Quote, at: end });
    }
    match utf8_text(slice_subrange(input, pos + 1, end)) {
        Some(name) => Ok((end + 1, name)),
        None => Err(ParseError { fault: Fault::Utf8, at: pos + 1 }),
    }
}

/// Reads the gap before a field, then a name.
pub open spec fn spaced_name_at(s: Seq<u8>, pos: int) -> Result<(int, Seq<char>), Failure> {
    match gap_at(s, pos) {
        Ok(p) => name_at(s, p),
        Err(e) => Err(e),
    }
}

/// Reads a physical-group record: a dimension, a tag and a quoted name on one line.
pub open spec fn group_at(s: Seq<u8>, pos: int) -> Result<(int, GroupModel), Failure> {
    match dimension_at(s, pos) {
        Err(e) => Err(e),
        Ok((p1, dim)) => match spaced_unsigned_at(s, p1) {
            Err(e) => Err(e),
            Ok((p2, tag)) => match spaced_name_at(s, p2) {
                Err(e) => Err(e),
                Ok((p3, name)) => match line_end(s, p3) {
                    Err(e) => Err(e),
                    Ok(p4) => Ok((p4, GroupModel { dim, tag, name })),
                },
            },
        },
    }
}

/// Reads a physical-group record.
pub fn parse_physical_group_msh2(input: &[u8], pos: usize) -> (r: Result<
    (usize, PhysicalGroup),
    ParseError,
>)
    ensures
        outcome(r) == group_at(input@, pos as int),
{
    let (p1, dim) = parse_dimension(input, pos)?;
    let g1 = whitespace(input, p1)?;
    let (p2, tag) = parse_u64(input, g1)?;
    let g2 = whitespace(input, p2)?;
    let (p3, name) = parse_name(input, g2)?;
    let p4 = end_of_line(input, p3)?;
    Ok((p4, PhysicalGroup { dim, tag, name }))
}

/// An unsigned number ends behind its start and inside the input.
pub proof fn lemma_unsigned_bounds(s: Seq<u8>, pos: int)
    ensures
        unsigned_at(s, pos) matches Ok((p, _)) ==> 0 <= pos < p <= s.len(),
{
    lemma_run_end(s, pos, digit());
}

/// A node record ends behind its start and inside the input.
pub proof fn lemma_node_bounds(s: Seq<u8>, pos: int)
    ensures
        node_at(s, pos) matches Ok((p, _)) ==> 0 <= pos < p <= s.len(),
{
    if let Ok((p1, _)) = unsigned_at(s, pos) {
        lemma_unsigned_bounds(s, pos);
        if let Ok((p2, _)) = spaced_coordinate_at(s, p1) {
            lemma_spaced_coordinate_bounds(s, p1);
            if let Ok((p3, _)) = spaced_coordinate_at(s, p2) {
                lemma_spaced_coordinate_bounds(s, p2);
                if let Ok((p4, _)) = spaced_coordinate_at(s, p3) {
                    lemma_spaced_coordinate_bounds(s, p3);
                    lemma_line_end_bounds(s, p4);
                }
            }
        }
    }
}

/// A coordinate behind its gap ends behind its start and inside the input.
pub proof fn lemma_spaced_coordinate_bounds(s: Seq<u8>, pos: int)
    ensures
        spaced_coordinate_at(s, pos) matches Ok((p, _)) ==> 0 <= pos < p <= s.len(),
{
    lemma_gap_bounds(s, pos);
    if let Ok(g) = gap_at(s, pos) {
        lemma_run_end(s, g, solid());
    }
}

/// Numbers behind their gaps end at or behind their start, inside the input, and are as many
/// as were asked for.
pub proof fn lemma_fields_bounds(s: Seq<u8>, pos: int, count: nat)
    requires
        0 <= pos <= s.len(),
    ensures
        fields_at(s, pos, count) matches Ok((p, fields)) ==> pos <= p <= s.len() && fields.len()
            == count,
    decreases count,
{
    if count > 0 {
        lemma_gap_bounds(s, pos);
        if let Ok(g) = gap_at(s, pos) {
            lemma_unsigned_bounds(s, g);
            if let Ok((p, _)) = unsigned_at(s, g) {
                lemma_fields_bounds(s, p, (count - 1) as nat);
            }
        }
    }
}

/// An element record ends behind its start and inside the input, and the element it holds has
/// as many nodes as its shape joins.
pub proof fn lemma_element_bounds(s: Seq<u8>, pos: int)
    ensures
        element_at(s, pos) matches Ok((p, record)) ==> 0 <= pos < p <= s.len() && record.elt.wf(),
{
    if let Ok((p1, _)) = unsigned_at(s, pos) {
        lemma_unsigned_bounds(s, pos);
        lemma_gap_bounds(s, p1);
        if let Ok(g1) = gap_at(s, p1) {
            lemma_run_end(s, g1, digit());
            if let Ok((p2, ty)) = label_at(s, g1) {
                lemma_gap_bounds(s, p2);
                if let Ok(g2) = gap_at(s, p2) {
                    lemma_unsigned_bounds(s, g2);
                    if let Ok((q, num_tags)) = unsigned_at(s, g2) {
                        lemma_fields_bounds(s, q, num_tags as nat);
                        if let Ok((p3, _)) = fields_at(s, q, num_tags as nat) {
                            lemma_fields_bounds(s, p3, ty.arity());
                            if let Ok((p4, _)) = fields_at(s, p3, ty.arity()) {
                                lemma_line_end_bounds(s, p4);
                            }
                        }
                    }
                }
            }
        }
    }
}

/// A physical-group record ends behind its start and inside the input, and its dimension is
/// at most 3.
pub proof fn lemma_group_bounds(s: Seq<u8>, pos: int)
    ensures
        group_at(s, pos) matches Ok((p, group)) ==> 0 <= pos < p <= s.len() && group.dim <= 3,
{
    if let Ok((p1, _)) = dimension_at(s, pos) {
        lemma_gap_bounds(s, p1);
        if let Ok(g1) = gap_at(s, p1) {
            lemma_unsigned_bounds(s, g1);
            if let Ok((p2, _)) = unsigned_at(s, g1) {
                lemma_gap_bounds(s, p2);
                if let Ok(g2) = gap_at(s, p2) {
                    lemma_run_end(s, g2 + 1, name_byte());
                    if let Ok((p3, _)) = name_at(s, g2) {
                        lemma_line_end_bounds(s, p3);
                    }
                }
            }
        }
    }
}

} // verus!
