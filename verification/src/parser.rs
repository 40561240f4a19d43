//! The decoder: header, records, sections, documents.
//!
//! Each decoder has a specification function that says, for every input and position, what is
//! read and where reading stops, or which byte is refused and why; the decoder's contract is
//! that it computes that function.
pub use crate::header::{
    dialect_header_at, format_footer, format_footer_at, format_header, format_header_at,
    format_line_at, header_at, lemma_format_line_bounds, lemma_header_bounds, marker_line_at,
    msh2_ascii_header, msh4_ascii_header, msh_header, one_be, one_le, parse_format_line,
    parse_marker_line, parse_version, size_width_at, storage_flag_at, version_at, MshVersion,
};
pub use crate::records::{
    after, coordinate_at, dimension_at, element_at, elt_info_at, fields_at, group_at, label_at,
    lemma_element_bounds, lemma_fields_bounds, lemma_group_bounds, lemma_node_bounds,
    lemma_spaced_coordinate_bounds, lemma_unsigned_bounds, name_at, node_at, parse_coordinate,
    parse_dimension, parse_element_msh2, parse_elt_info, parse_fields, parse_label, parse_name,
    parse_node_msh2, parse_physical_group_msh2, present, spaced_coordinate_at, spaced_elt_info_at,
    spaced_label_at, spaced_name_at, spaced_unsigned_at, EltInfo, EltRecord,
};
pub use crate::sections::{
    closing_word, count_line_at, count_warnings, element_records_at, element_section_at,
    element_section_warnings, elements_header, elt_parts, extra_tag_warnings, first_closing_at,
    group_records_at, group_section_at, lemma_element_records_bounds, lemma_element_section_bounds,
    lemma_first_closing, lemma_group_records_bounds, lemma_group_section_bounds,
    lemma_node_records_bounds, lemma_node_section_bounds, lemma_unknown_section_bounds,
    node_records_at, node_section_at, nodes_header, note_count, parse_count_line,
    parse_element_records, parse_elements_section_msh2, parse_group_records, parse_node_records,
    parse_node_section_msh2, parse_physical_groups_msh2, parse_section_name, parse_unknown_section,
    physical_groups_header, section_name_at, unknown_section_at, Listing,
};
pub use crate::words::{lemma_format_words, lemma_words_not_empty};
use crate::{MeshModel, Msh, Tag};
use crate::lexical::{
    has_at, outcome, same_bytes, starts_with, tag_line_at, Failure, Fault, ParseError,
};
use vstd::prelude::*;
use vstd::string::StringSliceAdditionalSpecFns;

verus! {

/// The sections of a version 2.2 document.
#[derive(Debug, Copy, Clone, PartialEq, Eq)]
pub enum Msh2Section {
    Nodes,
    Elements,
    PhysicalGroups,
    Unknown,
}

impl DeepView for Msh2Section {
    type V = Msh2Section;

    open spec fn deep_view(&self) -> Msh2Section {
        *self
    }
}

/// Something that a decoder met and went on from.
#[derive(Debug, Copy, Clone, PartialEq, Eq)]
pub enum Warning {
    /// A section holds another number of records than its first line declares.
    CountMismatch { section: Msh2Section, declared: u64, found: usize },
    /// An element declares more than the two tags that are kept; the others were read and dropped.
    ExtraTags { element: Tag, declared: u64 },
}

/// Why a document was refused.
#[derive(Debug, Copy, Clone, PartialEq, Eq)]
pub enum MshError {
    /// The format block is missing, garbled, or asks for what is not decoded.
    Header { source: ParseError },
    /// A section is malformed.
    Section { source: ParseError },
    /// The header is sound, and nothing here decodes the body of its dialect.
    Unsupported { dialect: MshVersion },
}

/// Why a document was refused, as mathematical values.
pub enum MshFailure {
    Header(Failure),
    Section(Failure),
    Unsupported(MshVersion),
}

impl View for MshError {
    type V = MshFailure;

    open spec fn view(&self) -> MshFailure {
        match *self {
            MshError::Header { source } => MshFailure::Header(source@),
            MshError::Section { source } => MshFailure::Section(source@),
            MshError::Unsupported { dialect } => MshFailure::Unsupported(dialect),
        }
    }
}

/// The result of a function that gives a mesh or an [`MshError`].
pub type MshResult<T> = Result<T, MshError>;

/// What reading a document gives: a mesh, and the warnings met on the way.
pub struct Reading {
    pub mesh: MeshModel,
    pub warnings: Seq<Warning>,
}

impl Reading {
    /// The state before anything is read: an empty mesh, no warning.
    pub open spec fn start() -> Reading {
        Reading { mesh: MeshModel::empty(), warnings: Seq::empty() }
    }
}

/// Names the section that opens at `pos`, reading nothing. The three known sections are tried
/// in turn; any other opening line names a section that is not understood, but for the line
/// that opens a format block, which starts the next document.
#[verifier::opaque]
pub open spec fn section_kind_at(s: Seq<u8>, pos: int) -> Result<(int, Msh2Section), Failure> {
    if tag_line_at(s, pos, "$Nodes".spec_bytes()) is Ok {
        Ok((pos, Msh2Section::Nodes))
    } else if tag_line_at(s, pos, "$Elements".spec_bytes()) is Ok {
        Ok((pos, Msh2Section::Elements))
    } else if tag_line_at(s, pos, "$PhysicalNames".spec_bytes()) is Ok {
        Ok((pos, Msh2Section::PhysicalGroups))
    } else {
        match section_name_at(s, pos) {
            Ok((_, name)) => if name == "MeshFormat".spec_bytes() {
                Err(Failure { fault: Fault::Literal, at: pos })
            } else {
                Ok((pos, Msh2Section::Unknown))
            },
            Err(_) => Err(Failure { fault: Fault::Literal, at: pos }),
        }
    }
}

/// Names the section that opens at `pos`, reading nothing: the position given back is `pos`.
pub fn peek_section(input: &[u8], pos: usize) -> (r: Result<(usize, Msh2Section), ParseError>)
    ensures
        outcome(r) == section_kind_at(input@, pos as int),
{
    reveal(section_kind_at);
    if nodes_header(input, pos).is_ok() {
        return Ok((pos, Msh2Section::Nodes));
    }
    if elements_header(input, pos).is_ok() {
        return Ok((pos, Msh2Section::Elements));
    }
    if physical_groups_header(input, pos).is_ok() {
        return Ok((pos, Msh2Section::PhysicalGroups));
    }
    match parse_section_name(input, pos) {
        Ok((_, name)) => if same_bytes(name.as_slice(), "MeshFormat".as_bytes()) {
            Err(ParseError { fault: Fault::Literal, at: pos })
        } else {
            Ok((pos, Msh2Section::Unknown))
        },
        Err(_) => Err(ParseError { fault: Fault::Literal, at: pos }),
    }
}

/// Names the dialect of the format block at `pos`, reading nothing: the position given back is
/// `pos`.
pub open spec fn header_kind_at(s: Seq<u8>, pos: int) -> Result<(int, MshVersion), Failure> {
    match header_at(s, pos) {
        Ok((_, dialect)) => Ok((pos, dialect)),
        Err(e) => Err(e),
    }
}

/// Names the dialect of the format block at `pos`, reading nothing.
pub fn peek_header(input: &[u8], pos: usize) -> (r: Result<(usize, MshVersion), ParseError>)
    ensures
        outcome(r) == header_kind_at(input@, pos as int),
{
    let (_, dialect) = msh_header(input, pos)?;
    Ok((pos, dialect))
}

/// What a section of kind `kind` at `pos` makes of the mesh `mesh`: where it ends, the mesh
/// with the section's records in place of those it had of that kind, and the warnings met.
/// A section that is not understood leaves the mesh as it is.
#[verifier::opaque]
pub open spec fn section_at(s: Seq<u8>, pos: int, kind: Msh2Section, mesh: MeshModel) -> Result<
    (int, Reading),
    Failure,
> {
    match kind {
        Msh2Section::Nodes => match node_section_at(s, pos) {
            Err(e) => Err(e),
            Ok((p, listing)) => Ok(
                (
                    p,
                    Reading {
                        mesh: MeshModel { nodes: listing.items, ..mesh },
                        warnings: count_warnings(
                            Msh2Section::Nodes,
                            listing.declared,
                            listing.items.len(),
                        ),
                    },
                ),
            ),
        },
        Msh2Section::Elements => match element_section_at(s, pos) {
            Err(e) => Err(e),
            Ok((p, listing)) => Ok(
                (
                    p,
                    Reading {
                        mesh: MeshModel { elts: elt_parts(listing.items), ..mesh },
                        warnings: element_section_warnings(listing),
                    },
                ),
            ),
        },
        Msh2Section::PhysicalGroups => match group_section_at(s, pos) {
            Err(e) => Err(e),
            Ok((p, listing)) => Ok(
                (
                    p,
                    Reading {
                        mesh: MeshModel { physical_groups: listing.items, ..mesh },
                        warnings: count_warnings(
                            Msh2Section::PhysicalGroups,
                            listing.declared,
                            listing.items.len(),
                        ),
                    },
                ),
            ),
        },
        Msh2Section::Unknown => match unknown_section_at(s, pos) {
            Err(e) => Err(e),
            Ok((p, _)) => Ok((p, Reading { mesh, warnings: Seq::empty() })),
        },
    }
}

/// Reads the section of kind `section` at `pos` into `mesh`. On success the warnings met are
/// put behind those that `warnings` holds; on failure the mesh and the warnings are as before.
pub fn add_section(
    mesh: &mut Msh,
    section: Msh2Section,
    input: &[u8],
    pos: usize,
    warnings: &mut Vec<Warning>,
) -> (r: Result<(usize, ()), ParseError>)
    ensures
        match section_at(input@, pos as int, section, old(mesh)@) {
            Ok((p, read)) => r matches Ok((next, _)) && next == p && final(mesh)@ == read.mesh
                && final(warnings)@ == old(warnings)@ + read.warnings,
            Err(e) => r matches Err(f) && f@ == e && final(mesh)@ == old(mesh)@
                && final(warnings)@ == old(warnings)@,
        },
{
    reveal(section_at);
    match section {
        Msh2Section::Nodes => {
            let (rest, nodes) = parse_node_section_msh2(input, pos, warnings)?;
            mesh.nodes = nodes;
            Ok((rest, ()))
        },
        Msh2Section::Elements => {
            let (rest, elts) = parse_elements_section_msh2(input, pos, warnings)?;
            mesh.elts = elts;
            Ok((rest, ()))
        },
        Msh2Section::PhysicalGroups => {
            let (rest, groups) = parse_physical_groups_msh2(input, pos, warnings)?;
            mesh.physical_groups = groups;
            Ok((rest, ()))
        },
        Msh2Section::Unknown => {
            let (rest, _) = parse_unknown_section(input, pos)?;
            assert(warnings@ + Seq::<Warning>::empty() =~= warnings@);
            Ok((rest, ()))
        },
    }
}

/// A section ends behind its start and inside the input.
pub proof fn lemma_section_bounds(s: Seq<u8>, pos: int, kind: Msh2Section, mesh: MeshModel)
    ensures
        section_at(s, pos, kind, mesh) matches Ok((p, _)) ==> 0 <= pos < p <= s.len(),
{
    reveal(section_at);
    match kind {
        Msh2Section::Nodes => lemma_node_section_bounds(s, pos),
        Msh2Section::Elements => lemma_element_section_bounds(s, pos),
        Msh2Section::PhysicalGroups => lemma_group_section_bounds(s, pos),
        Msh2Section::Unknown => lemma_unknown_section_bounds(s, pos),
    }
}

/// Reads sections for as long as one opens where the last one ended, each into the mesh that
/// the ones before it left, and gives the mesh and the warnings of them all.
pub open spec fn sections_at(s: Seq<u8>, pos: int, so_far: Reading) -> Result<
    (int, Reading),
    Failure,
>
    decreases s.len() - pos,
{
    match section_kind_at(s, pos) {
        Err(_) => Ok((pos, so_far)),
        Ok((_, kind)) => match section_at(s, pos, kind, so_far.mesh) {
            Err(e) => Err(e),
            Ok((p, read)) => {
                proof {
                    lemma_section_bounds(s, pos, kind, so_far.mesh);
                }
                sections_at(
                    s,
                    p,
                    Reading { mesh: read.mesh, warnings: so_far.warnings + read.warnings },
                )
            },
        },
    }
}

/// Reads a text document of version 2.2: its format block, then its sections.
pub open spec fn ascii2_document_at(s: Seq<u8>, pos: int) -> Result<(int, Reading), MshFailure> {
    match dialect_header_at(s, pos, MshVersion::AsciiV22) {
        Err(e) => Err(MshFailure::Header(e)),
        Ok((p, _)) => match sections_at(s, p, Reading::start()) {
            Err(e) => Err(MshFailure::Section(e)),
            Ok(done) => Ok(done),
        },
    }
}

/// Reads a document of the dialect `dialect`. Only the text form of version 2.2 is decoded.
pub open spec fn single_at(s: Seq<u8>, pos: int, dialect: MshVersion) -> Result<
    (int, Reading),
    MshFailure,
> {
    match dialect {
        MshVersion::AsciiV22 => ascii2_document_at(s, pos),
        _ => Err(MshFailure::Unsupported(dialect)),
    }
}

/// Reads a text document of version 2.2. On success the warnings met are put behind those that
/// `warnings` holds; on failure they are as before, and no mesh is given.
#[verifier::rlimit(40)]
pub fn parse_msh2_ascii(input: &[u8], pos: usize, warnings: &mut Vec<Warning>) -> (r: MshResult<
    (usize, Msh),
>)
    ensures
        match ascii2_document_at(input@, pos as int) {
            Ok((p, read)) => r matches Ok((next, mesh)) && next == p && mesh@ == read.mesh
                && final(warnings)@ == old(warnings)@ + read.warnings,
            Err(e) => r matches Err(f) && f@ == e && final(warnings)@ == old(warnings)@,
        },
{
    let mark = warnings.len();
    let (start, _) = match msh2_ascii_header(input, pos) {
        Ok(found) => found,
        Err(source) => {
            return Err(MshError::Header { source });
        },
    };
    let mut mesh = Msh::new();
    let mut cur: usize = start;
    let ghost mut met: Seq<Warning> = Seq::empty();
    assert(old(warnings)@ + met =~= old(warnings)@);
    loop
        invariant
            mark == old(warnings)@.len(),
            warnings@ == old(warnings)@ + met,
            dialect_header_at(input@, pos as int, MshVersion::AsciiV22) matches Ok((p, _)) && p
                == start,
            sections_at(input@, start as int, Reading::start()) == sections_at(
                input@,
                cur as int,
                Reading { mesh: mesh@, warnings: met },
            ),
        decreases input@.len() - cur,
    {
        let section = match peek_section(input, cur) {
            Ok((_, section)) => section,
            Err(_) => {
                return Ok((cur, mesh));
            },
        };
        let ghost before = mesh@;
        let ghost met_before = met;
        match add_section(&mut mesh, section, input, cur, warnings) {
            Ok((next, _)) => {
                proof {
                    let read = section_at(input@, cur as int, section, before)->Ok_0.1;
                    lemma_section_bounds(input@, cur as int, section, before);
                    met = met_before + read.warnings;
                    assert(warnings@ =~= old(warnings)@ + met);
                }
                cur = next;
            },
            Err(source) => {
                warnings.truncate(mark);
                assert(warnings@ =~= old(warnings)@);
                return Err(MshError::Section { source });
            },
        }
    }
}

/// Reads a document whose format block names `header`.
pub fn parse_single_msh(
    input: &[u8],
    pos: usize,
    header: MshVersion,
    warnings: &mut Vec<Warning>,
) -> (r: MshResult<(usize, Msh)>)
    ensures
        match single_at(input@, pos as int, header) {
            Ok((p, read)) => r matches Ok((next, mesh)) && next == p && mesh@ == read.mesh
                && final(warnings)@ == old(warnings)@ + read.warnings,
            Err(e) => r matches Err(f) && f@ == e && final(warnings)@ == old(warnings)@,
        },
{
    match header {
        MshVersion::AsciiV22 => parse_msh2_ascii(input, pos, warnings),
        MshVersion::AsciiV41 => Err(MshError::Unsupported { dialect: header }),
        MshVersion::BinaryLeV22 => Err(MshError::Unsupported { dialect: header }),
        MshVersion::BinaryLeV41 => Err(MshError::Unsupported { dialect: header }),
    }
}

/// Sections end at or behind their start and inside the input.
pub proof fn lemma_sections_bounds(s: Seq<u8>, pos: int, so_far: Reading)
    requires
        0 <= pos <= s.len(),
    ensures
        sections_at(s, pos, so_far) matches Ok((p, _)) ==> pos <= p <= s.len(),
    decreases s.len() - pos,
{
    if let Ok((_, kind)) = section_kind_at(s, pos) {
        lemma_section_bounds(s, pos, kind, so_far.mesh);
        if let Ok((p, read)) = section_at(s, pos, kind, so_far.mesh) {
            lemma_sections_bounds(
                s,
                p,
                Reading { mesh: read.mesh, warnings: so_far.warnings + read.warnings },
            );
        }
    }
}

/// A document ends behind its start and inside the input.
pub proof fn lemma_single_bounds(s: Seq<u8>, pos: int, dialect: MshVersion)
    ensures
        single_at(s, pos, dialect) matches Ok((p, _)) ==> 0 <= pos < p <= s.len(),
{
    lemma_header_bounds(s, pos);
    if let Ok((p, _)) = dialect_header_at(s, pos, MshVersion::AsciiV22) {
        lemma_sections_bounds(s, p, Reading::start());
    }
}

/// The meshes of the documents `readings`, in order.
pub open spec fn meshes_of(readings: Seq<Reading>) -> Seq<MeshModel> {
    Seq::new(readings.len(), |i: int| readings[i].mesh)
}

/// The warnings of the documents `readings`, in order.
pub open spec fn warnings_of(readings: Seq<Reading>) -> Seq<Warning>
    decreases readings.len(),
{
    if readings.len() == 0 {
        Seq::empty()
    } else {
        warnings_of(readings.drop_last()) + readings.last().warnings
    }
}

/// Documents with `head` put before them.
pub open spec fn after_documents(head: Seq<Reading>, rest: Result<Seq<Reading>, MshFailure>)
    -> Result<Seq<Reading>, MshFailure> {
    match rest {
        Ok(tail) => Ok(head + tail),
        Err(e) => Err(e),
    }
}

/// Reads documents for as long as a format block opens where the last document ended. What
/// follows the last document is not looked at; a format block that opens and is not sound, or
/// names a dialect that is not decoded, and a malformed section refuse the whole input.
pub open spec fn documents_at(s: Seq<u8>, pos: int) -> Result<Seq<Reading>, MshFailure>
    decreases s.len() - pos,
{
    if !has_at(s, pos, "$MeshFormat".spec_bytes()) {
        Ok(Seq::empty())
    } else {
        match header_kind_at(s, pos) {
            Err(e) => Err(MshFailure::Header(e)),
            Ok((_, dialect)) => match single_at(s, pos, dialect) {
                Err(e) => Err(e),
                Ok((p, read)) => {
                    proof {
                        lemma_single_bounds(s, pos, dialect);
                    }
                    after_documents(seq![read], documents_at(s, p))
                },
            },
        }
    }
}

/// Reads all the documents of `input`, which may hold none. On success the warnings met are
/// put behind those that `warnings` holds; on failure they are as before, and no mesh is given.
#[verifier::rlimit(40)]
pub fn parse_msh_file(input: &[u8], warnings: &mut Vec<Warning>) -> (r: MshResult<Vec<Msh>>)
    ensures
        match documents_at(input@, 0) {
            Ok(readings) => r matches Ok(meshes) && meshes.deep_view() == meshes_of(readings)
                && final(warnings)@ == old(warnings)@ + warnings_of(readings),
            Err(e) => r matches Err(f) && f@ == e && final(warnings)@ == old(warnings)@,
        },
        input@.len() == 0 ==> (r matches Ok(meshes) && meshes@.len() == 0),
{
    let mark = warnings.len();
    let ghost mut seen: Seq<Reading> = Seq::empty();
    let mut meshes: Vec<Msh> = Vec::new();
    let mut cur: usize = 0;
    proof {
        lemma_words_not_empty();
        assert(old(warnings)@ + warnings_of(seen) =~= old(warnings)@);
    }
    loop
        invariant
            mark == old(warnings)@.len(),
            documents_at(input@, 0) == after_documents(seen, documents_at(input@, cur as int)),
            meshes@.len() == seen.len(),
            forall|i: int| 0 <= i < seen.len() ==> (#[trigger] meshes@[i])@ == seen[i].mesh,
            warnings@ == old(warnings)@ + warnings_of(seen),
            input@.len() == 0 ==> seen.len() == 0 && "$MeshFormat".spec_bytes().len() > 0,
        decreases input@.len() - cur,
    {
        if !starts_with(input, cur, "$MeshFormat".as_bytes()) {
            assert(seen + Seq::<Reading>::empty() =~= seen);
            assert(meshes.deep_view() =~= meshes_of(seen));
            return Ok(meshes);
        }
        let header = match peek_header(input, cur) {
            Ok((_, header)) => header,
            Err(source) => {
                warnings.truncate(mark);
                assert(warnings@ =~= old(warnings)@);
                return Err(MshError::Header { source });
            },
        };
        let (next, mesh) = match parse_single_msh(input, cur, header, warnings) {
            Ok(found) => found,
            Err(e) => {
                warnings.truncate(mark);
                assert(warnings@ =~= old(warnings)@);
                return Err(e);
            },
        };
        meshes.push(mesh);
        proof {
            lemma_single_bounds(input@, cur as int, header);
            let read = single_at(input@, cur as int, header)->Ok_0.1;
            if let Ok(tail) = documents_at(input@, next as int) {
                assert(seen + (seq![read] + tail) =~= seen.push(read) + tail);
            }
            assert(seen.push(read).drop_last() =~= seen);
            assert(warnings@ =~= old(warnings)@ + warnings_of(seen.push(read)));
            seen = seen.push(read);
        }
        cur = next;
    }
}

} // verus!
