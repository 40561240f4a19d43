//! The sections of a text document of version 2.2: an opening line, a count, records and a
//! closing line, or, where a section is not understood, all up to the line that closes it.
use crate::{EltModel, GroupModel, MeshElt, Node, PhysicalGroup};
use crate::decimal::{parse_u64, unsigned_at};
use crate::lexical::{
    append_bytes, byte_at, end_of_line, field_end, lemma_line_end_bounds, lemma_run_end,
    lemma_tag_line_bounds, lemma_word_bytes, line_end, outcome, run_end, solid, tag_line,
    tag_line_at, Failure, Fault, ParseError,
};
use crate::parser::{Msh2Section, Warning};
use crate::records::{
    after, element_at, group_at, lemma_element_bounds, lemma_group_bounds, lemma_node_bounds,
    lemma_unsigned_bounds, node_at, parse_element_msh2, parse_node_msh2, parse_physical_group_msh2,
    EltRecord,
};
use crate::words::lemma_words_not_empty;
use vstd::prelude::*;
use vstd::slice::slice_subrange;
use vstd::string::StringSliceAdditionalSpecFns;

verus! {

/// What a section holds: the number of records that its first line declares, and the records.
pub struct Listing<T> {
    pub declared: u64,
    pub items: Seq<T>,
}

/// What a section warns of: a count that is not the number of its records.
pub open spec fn count_warnings(section: Msh2Section, declared: u64, found: nat) -> Seq<Warning> {
    if declared == found {
        Seq::empty()
    } else {
        seq![Warning::CountMismatch { section, declared, found: found as usize }]
    }
}

/// Reads the line that declares how many records a section holds.
pub open spec fn count_line_at(s: Seq<u8>, pos: int) -> Result<(int, u64), Failure> {
    match unsigned_at(s, pos) {
        Err(e) => Err(e),
        Ok((p, declared)) => match line_end(s, p) {
            Err(e) => Err(e),
            Ok(q) => Ok((q, declared)),
        },
    }
}

/// Reads the line that declares how many records a section holds.
pub fn parse_count_line(input: &[u8], pos: usize) -> (r: Result<(usize, u64), ParseError>)
    ensures
        outcome(r) == count_line_at(input@, pos as int),
{
    let (p, declared) = parse_u64(input, pos)?;
    let q = end_of_line(input, p)?;
    Ok((q, declared))
}

/// Puts a warning behind those that `warnings` holds, if `found` records are not the
/// `declared` number.
pub fn note_count(warnings: &mut Vec<Warning>, section: Msh2Section, declared: u64, found: usize)
    ensures
        final(warnings)@ == old(warnings)@ + count_warnings(section, declared, found as nat),
{
    if declared != found as u64 {
        warnings.push(Warning::CountMismatch { section, declared, found });
        assert(warnings@ =~= old(warnings)@ + count_warnings(section, declared, found as nat));
    } else {
        assert(warnings@ =~= old(warnings)@ + count_warnings(section, declared, found as nat));
    }
}

/// Reads node records up to the line that closes the section, and that line.
pub open spec fn node_records_at(s: Seq<u8>, pos: int) -> Result<(int, Seq<Node>), Failure>
    decreases s.len() - pos,
{
    match tag_line_at(s, pos, "$EndNodes".spec_bytes()) {
        Ok(p) => Ok((p, Seq::empty())),
        Err(_) => match node_at(s, pos) {
            Err(e) => Err(e),
            Ok((p, node)) => {
                proof {
                    lemma_node_bounds(s, pos);
                }
                after(seq![node], node_records_at(s, p))
            },
        },
    }
}

/// Reads a node section: the opening line, the declared count, the records, the closing line.
pub open spec fn node_section_at(s: Seq<u8>, pos: int) -> Result<(int, Listing<Node>), Failure> {
    match tag_line_at(s, pos, "$Nodes".spec_bytes()) {
        Err(e) => Err(e),
        Ok(p1) => match count_line_at(s, p1) {
            Err(e) => Err(e),
            Ok((p2, declared)) => match node_records_at(s, p2) {
                Err(e) => Err(e),
                Ok((p3, items)) => Ok((p3, Listing { declared, items })),
            },
        },
    }
}

/// Reads node records up to the line that closes the section, and that line.
pub fn parse_node_records(input: &[u8], pos: usize) -> (r: Result<(usize, Vec<Node>), ParseError>)
    ensures
        match node_records_at(input@, pos as int) {
            Ok((p, nodes)) => r matches Ok((next, got)) && next == p && got@ == nodes,
            Err(e) => r matches Err(f) && f@ == e,
        },
{
    let mut got: Vec<Node> = Vec::new();
    let mut cur: usize = pos;
    loop
        invariant
            node_records_at(input@, pos as int) == after(got@, node_records_at(input@, cur as int)),
        decreases input@.len() - cur,
    {
        if let Ok(next) = tag_line(input, cur, "$EndNodes".as_bytes()) {
            assert(got@ + Seq::<Node>::empty() =~= got@);
            return Ok((next, got));
        }
        let ghost before = got@;
        let (p, node) = match parse_node_msh2(input, cur) {
            Ok(found) => found,
            Err(e) => {
                return Err(e);
            },
        };
        got.push(node);
        proof {
            lemma_node_bounds(input@, cur as int);
            if let Ok((q, tail)) = node_records_at(input@, p as int) {
                assert(before + (seq![node] + tail) =~= got@ + tail);
            }
        }
        cur = p;
    }
}

/// Reads a node section. A declared count that is not the number of records is a warning, put
/// behind those that `warnings` holds, and the records are kept.
pub fn parse_node_section_msh2(input: &[u8], pos: usize, warnings: &mut Vec<Warning>) -> (r:
    Result<(usize, Vec<Node>), ParseError>)
    ensures
        match node_section_at(input@, pos as int) {
            Ok((p, listing)) => r matches Ok((next, nodes)) && next == p && nodes@ == listing.items
                && final(warnings)@ == old(warnings)@ + count_warnings(
                Msh2Section::Nodes,
                listing.declared,
                listing.items.len(),
            ),
            Err(e) => r matches Err(f) && f@ == e && final(warnings)@ == old(warnings)@,
        },
{
    let p1 = tag_line(input, pos, "$Nodes".as_bytes())?;
    let (p2, declared) = parse_count_line(input, p1)?;
    let (p3, nodes) = parse_node_records(input, p2)?;
    note_count(warnings, Msh2Section::Nodes, declared, nodes.len());
    Ok((p3, nodes))
}

/// The elements of the records `records`, in order.
pub open spec fn elt_parts(records: Seq<EltRecord>) -> Seq<EltModel> {
    Seq::new(records.len(), |i: int| records[i].elt)
}

/// What reading the records `records` warns of, in order.
pub open spec fn extra_tag_warnings(records: Seq<EltRecord>) -> Seq<Warning>
    decreases records.len(),
{
    if records.len() == 0 {
        Seq::empty()
    } else {
        extra_tag_warnings(records.drop_last()) + records.last().warnings()
    }
}

/// Reads element records up to the line that closes the section, and that line.
pub open spec fn element_records_at(s: Seq<u8>, pos: int) -> Result<
    (int, Seq<EltRecord>),
    Failure,
>
    decreases s.len() - pos,
{
    match tag_line_at(s, pos, "$EndElements".spec_bytes()) {
        Ok(p) => Ok((p, Seq::empty())),
        Err(_) => match element_at(s, pos) {
            Err(e) => Err(e),
            Ok((p, record)) => {
                proof {
                    lemma_element_bounds(s, pos);
                }
                after(seq![record], element_records_at(s, p))
            },
        },
    }
}

/// Reads an element section: the opening line, the declared count, the records, the closing
/// line.
pub open spec fn element_section_at(s: Seq<u8>, pos: int) -> Result<
    (int, Listing<EltRecord>),
    Failure,
> {
    match tag_line_at(s, pos, "$Elements".spec_bytes()) {
        Err(e) => Err(e),
        Ok(p1) => match count_line_at(s, p1) {
            Err(e) => Err(e),
            Ok((p2, declared)) => match element_records_at(s, p2) {
                Err(e) => Err(e),
                Ok((p3, items)) => Ok((p3, Listing { declared, items })),
            },
        },
    }
}

/// What reading an element section warns of: first the elements with tags that were dropped,
/// then the count.
pub open spec fn element_section_warnings(listing: Listing<EltRecord>) -> Seq<Warning> {
    extra_tag_warnings(listing.items) + count_warnings(
        Msh2Section::Elements,
        listing.declared,
        listing.items.len(),
    )
}

/// Reads element records up to the line that closes the section, and that line. On success the
/// warnings of the records are put behind those that `warnings` holds.
#[verifier::rlimit(40)]
pub fn parse_element_records(input: &[u8], pos: usize, warnings: &mut Vec<Warning>) -> (r: Result<
    (usize, Vec<MeshElt>),
    ParseError,
>)
    ensures
        match element_records_at(input@, pos as int) {
            Ok((p, records)) => r matches Ok((next, elts)) && next == p && elts.deep_view()
                == elt_parts(records) && final(warnings)@ == old(warnings)@ + extra_tag_warnings(
                records,
            ),
            Err(e) => r matches Err(f) && f@ == e && final(warnings)@ == old(warnings)@,
        },
{
    let mark = warnings.len();
    let ghost start = warnings@;
    let ghost mut seen: Seq<EltRecord> = Seq::empty();
    let mut got: Vec<MeshElt> = Vec::new();
    let mut cur: usize = pos;
    assert(start + extra_tag_warnings(seen) =~= start);
    loop
        invariant
            mark == start.len(),
            start == old(warnings)@,
            element_records_at(input@, pos as int) == after(
                seen,
                element_records_at(input@, cur as int),
            ),
            got@.len() == seen.len(),
            forall|i: int| 0 <= i < seen.len() ==> (#[trigger] got@[i])@ == seen[i].elt,
            warnings@ == start + extra_tag_warnings(seen),
        decreases input@.len() - cur,
    {
        if let Ok(next) = tag_line(input, cur, "$EndElements".as_bytes()) {
            assert(seen + Seq::<EltRecord>::empty() =~= seen);
            assert(got.deep_view() =~= elt_parts(seen));
            return Ok((next, got));
        }
        let (p, elt) = match parse_element_msh2(input, cur, warnings) {
            Ok(found) => found,
            Err(e) => {
                warnings.truncate(mark);
                assert(warnings@ =~= start);
                return Err(e);
            },
        };
        got.push(elt);
        proof {
            lemma_element_bounds(input@, cur as int);
            let record = element_at(input@, cur as int)->Ok_0.1;
            if let Ok((q, tail)) = element_records_at(input@, p as int) {
                assert(seen + (seq![record] + tail) =~= seen.push(record) + tail);
            }
            assert(seen.push(record).drop_last() =~= seen);
            assert(warnings@ =~= start + extra_tag_warnings(seen.push(record)));
            seen = seen.push(record);
        }
        cur = p;
    }
}

/// Reads an element section. Elements with tags that were dropped and a declared count that is
/// not the number of records are warnings, put behind those that `warnings` holds.
pub fn parse_elements_section_msh2(input: &[u8], pos: usize, warnings: &mut Vec<Warning>) -> (r:
    Result<(usize, Vec<MeshElt>), ParseError>)
    ensures
        match element_section_at(input@, pos as int) {
            Ok((p, listing)) => r matches Ok((next, elts)) && next == p && elts.deep_view()
                == elt_parts(listing.items) && final(warnings)@ == old(warnings)@
                + element_section_warnings(listing),
            Err(e) => r matches Err(f) && f@ == e && final(warnings)@ == old(warnings)@,
        },
{
    let p1 = tag_line(input, pos, "$Elements".as_bytes())?;
    let (p2, declared) = parse_count_line(input, p1)?;
    let (p3, elts) = parse_element_records(input, p2, warnings)?;
    note_count(warnings, Msh2Section::Elements, declared, elts.len());
    proof {
        let listing = element_section_at(input@, pos as int)->Ok_0.1;
        assert(elts.deep_view().len() == listing.items.len());
        assert(warnings@ =~= old(warnings)@ + element_section_warnings(listing));
    }
    Ok((p3, elts))
}

/// Reads physical-group records up to the line that closes the section, and that line.
pub open spec fn group_records_at(s: Seq<u8>, pos: int) -> Result<(int, Seq<GroupModel>), Failure>
    decreases s.len() - pos,
{
    match tag_line_at(s, pos, "$EndPhysicalNames".spec_bytes()) {
        Ok(p) => Ok((p, Seq::empty())),
        Err(_) => match group_at(s, pos) {
            Err(e) => Err(e),
            Ok((p, group)) => {
                proof {
                    lemma_group_bounds(s, pos);
                }
                after(seq![group], group_records_at(s, p))
            },
        },
    }
}

/// Reads a section of physical groups: the opening line, the declared count, the records, the
/// closing line.
pub open spec fn group_section_at(s: Seq<u8>, pos: int) -> Result<
    (int, Listing<GroupModel>),
    Failure,
> {
    match tag_line_at(s, pos, "$PhysicalNames".spec_bytes()) {
        Err(e) => Err(e),
        Ok(p1) => match count_line_at(s, p1) {
            Err(e) => Err(e),
            Ok((p2, declared)) => match group_records_at(s, p2) {
                Err(e) => Err(e),
                Ok((p3, items)) => Ok((p3, Listing { declared, items })),
            },
        },
    }
}

/// Reads physical-group records up to the line that closes the section, and that line.
pub fn parse_group_records(input: &[u8], pos: usize) -> (r: Result<
    (usize, Vec<PhysicalGroup>),
    ParseError,
>)
    ensures
        match group_records_at(input@, pos as int) {
            Ok((p, groups)) => r matches Ok((next, got)) && next == p && got.deep_view() == groups,
            Err(e) => r matches Err(f) && f@ == e,
        },
{
    let ghost mut seen: Seq<GroupModel> = Seq::empty();
    let mut got: Vec<PhysicalGroup> = Vec::new();
    let mut cur: usize = pos;
    loop
        invariant
            group_records_at(input@, pos as int) == after(
                seen,
                group_records_at(input@, cur as int),
            ),
            got@.len() == seen.len(),
            forall|i: int| 0 <= i < seen.len() ==> (#[trigger] got@[i])@ == seen[i],
        decreases input@.len() - cur,
    {
        if let Ok(next) = tag_line(input, cur, "$EndPhysicalNames".as_bytes()) {
            assert(seen + Seq::<GroupModel>::empty() =~= seen);
            assert(got.deep_view() =~= seen);
            return Ok((next, got));
        }
        let (p, group) = match parse_physical_group_msh2(input, cur) {
            Ok(found) => found,
            Err(e) => {
                return Err(e);
            },
        };
        got.push(group);
        proof {
            lemma_group_bounds(input@, cur as int);
            if let Ok((q, tail)) = group_records_at(input@, p as int) {
                assert(seen + (seq![group@] + tail) =~= seen.push(group@) + tail);
            }
            seen = seen.push(group@);
        }
        cur = p;
    }
}

/// Reads a section of physical groups. A declared count that is not the number of records is a
/// warning, put behind those that `warnings` holds, and the records are kept.
pub fn parse_physical_groups_msh2(input: &[u8], pos: usize, warnings: &mut Vec<Warning>) -> (r:
    Result<(usize, Vec<PhysicalGroup>), ParseError>)
    ensures
        match group_section_at(input@, pos as int) {
            Ok((p, listing)) => r matches Ok((next, groups)) && next == p && groups.deep_view()
                == listing.items && final(warnings)@ == old(warnings)@ + count_warnings(
                Msh2Section::PhysicalGroups,
                listing.declared,
                listing.items.len(),
            ),
            Err(e) => r matches Err(f) && f@ == e && final(warnings)@ == old(warnings)@,
        },
{
    let p1 = tag_line(input, pos, "$PhysicalNames".as_bytes())?;
    let (p2, declared) = parse_count_line(input, p1)?;
    let (p3, groups) = parse_group_records(input, p2)?;
    note_count(warnings, Msh2Section::PhysicalGroups, declared, groups.len());
    assert(groups.deep_view().len() == groups@.len());
    Ok((p3, groups))
}

/// Reads the line that opens a section: a dollar sign, a name, and nothing else.
pub open spec fn section_name_at(s: Seq<u8>, pos: int) -> Result<(int, Seq<u8>), Failure> {
    if byte_at(s, pos) != Some(0x24u8) {
        Err(Failure { fault: Fault::Literal, at: pos })
    } else {
        let end = run_end(s, pos + 1, solid());
        if end == pos + 1 {
            Err(Failure { fault: Fault::Literal, at: pos + 1 })
        } else {
            match line_end(s, end) {
                Ok(p) => Ok((p, s.subrange(pos + 1, end))),
                Err(e) => Err(e),
            }
        }
    }
}

/// The word that closes the section named `name`.
pub open spec fn closing_word(name: Seq<u8>) -> Seq<u8> {
    "$End".spec_bytes() + name
}

/// The first position from `from` on at which a line holds `word` and nothing else.
pub open spec fn first_closing_at(s: Seq<u8>, from: int, word: Seq<u8>) -> Option<int>
    decreases s.len() - from,
{
    if from < 0 || from >= s.len() {
        None
    } else if tag_line_at(s, from, word) is Ok {
        Some(from)
    } else {
        first_closing_at(s, from + 1, word)
    }
}

/// Skips a section that is not understood: its opening line, and all up to and with the first
/// line behind it that closes a section of its name. Nothing in between is looked at.
pub open spec fn unknown_section_at(s: Seq<u8>, pos: int) -> Result<(int, ()), Failure> {
    match section_name_at(s, pos) {
        Err(e) => Err(e),
        Ok((body, name)) => match first_closing_at(s, body, closing_word(name)) {
            None => Err(Failure { fault: Fault::Unclosed, at: pos }),
            Some(q) => match tag_line_at(s, q, closing_word(name)) {
                Ok(p) => Ok((p, ())),
                Err(e) => Err(e),
            },
        },
    }
}

/// The first closing line is one, none stands before it, and where there is no first one
/// there is none.
pub proof fn lemma_first_closing(s: Seq<u8>, from: int, word: Seq<u8>)
    requires
        0 <= from,
        word.len() > 0,
    ensures
        match first_closing_at(s, from, word) {
            Some(q) => from <= q < s.len() && tag_line_at(s, q, word) is Ok && forall|j: int|
                from <= j < q ==> tag_line_at(s, j, word) is Err,
            None => forall|j: int| from <= j ==> tag_line_at(s, j, word) is Err,
        },
    decreases s.len() - from,
{
    if from < s.len() && !(tag_line_at(s, from, word) is Ok) {
        lemma_first_closing(s, from + 1, word);
    }
}

/// Reads the line that opens a section, and gives the section's name.
pub fn parse_section_name(input: &[u8], pos: usize) -> (r: Result<(usize, Vec<u8>), ParseError>)
    ensures
        match section_name_at(input@, pos as int) {
            Ok((p, name)) => r matches Ok((next, got)) && next == p && got@ == name,
            Err(e) => r matches Err(f) && f@ == e,
        },
{
    if pos >= input.len() || input[pos] != 0x24 {
        return Err(ParseError { fault: Fault::Literal, at: pos });
    }
    let end = field_end(input, pos + 1);
    if end == pos + 1 {
        return Err(ParseError { fault: Fault::Literal, at: pos + 1 });
    }
    let p = end_of_line(input, end)?;
    let mut name: Vec<u8> = Vec::new();
    append_bytes(&mut name, slice_subrange(input, pos + 1, end));
    assert(name@ =~= input@.subrange(pos + 1, end as int));
    Ok((p, name))
}

/// Skips a section that is not understood. Where no line closes it, it is refused: the search
/// ends with the input.
pub fn parse_unknown_section(input: &[u8], pos: usize) -> (r: Result<(usize, ()), ParseError>)
    ensures
        outcome(r) == unknown_section_at(input@, pos as int),
        section_name_at(input@, pos as int) matches Ok((body, name)) && (forall|q: int|
            body <= q ==> tag_line_at(input@, q, closing_word(name)) is Err) ==> r is Err,
{
    let (body, name) = parse_section_name(input, pos)?;
    let mut word: Vec<u8> = Vec::new();
    append_bytes(&mut word, "$End".as_bytes());
    append_bytes(&mut word, name.as_slice());
    assert(word@ =~= closing_word(name@));
    proof {
        reveal_strlit("$End");
        lemma_word_bytes("$End");
        lemma_first_closing(input@, body as int, word@);
    }
    let mut q: usize = body;
    while q < input.len()
        invariant
            body <= q,
            word@ == closing_word(name@),
            section_name_at(input@, pos as int) == Ok::<(int, Seq<u8>), Failure>(
                (body as int, name@),
            ),
            match first_closing_at(input@, body as int, word@) {
                Some(q) => tag_line_at(input@, q, word@) is Ok,
                None => true,
            },
            first_closing_at(input@, body as int, word@) == first_closing_at(
                input@,
                q as int,
                word@,
            ),
        decreases input@.len() - q,
    {
        if let Ok(next) = tag_line(input, q, word.as_slice()) {
            return Ok((next, ()));
        }
        q += 1;
    }
    Err(ParseError { fault: Fault::Unclosed, at: pos })
}

/// Reads the line that opens a node section.
pub fn nodes_header(input: &[u8], pos: usize) -> (r: Result<(usize, Msh2Section), ParseError>)
    ensures
        match tag_line_at(input@, pos as int, "$Nodes".spec_bytes()) {
            Ok(p) => outcome(r) == Ok::<(int, Msh2Section), Failure>((p, Msh2Section::Nodes)),
            Err(e) => outcome(r) == Err::<(int, Msh2Section), Failure>(e),
        },
{
    let p = tag_line(input, pos, "$Nodes".as_bytes())?;
    Ok((p, Msh2Section::Nodes))
}

/// Reads the line that opens an element section.
pub fn elements_header(input: &[u8], pos: usize) -> (r: Result<(usize, Msh2Section), ParseError>)
    ensures
        match tag_line_at(input@, pos as int, "$Elements".spec_bytes()) {
            Ok(p) => outcome(r) == Ok::<(int, Msh2Section), Failure>((p, Msh2Section::Elements)),
            Err(e) => outcome(r) == Err::<(int, Msh2Section), Failure>(e),
        },
{
    let p = tag_line(input, pos, "$Elements".as_bytes())?;
    Ok((p, Msh2Section::Elements))
}

/// Reads the line that opens a section of physical groups.
pub fn physical_groups_header(input: &[u8], pos: usize) -> (r: Result<
    (usize, Msh2Section),
    ParseError,
>)
    ensures
        match tag_line_at(input@, pos as int, "$PhysicalNames".spec_bytes()) {
            Ok(p) => outcome(r) == Ok::<(int, Msh2Section), Failure>(
                (p, Msh2Section::PhysicalGroups),
            ),
            Err(e) => outcome(r) == Err::<(int, Msh2Section), Failure>(e),
        },
{
    let p = tag_line(input, pos, "$PhysicalNames".as_bytes())?;
    Ok((p, Msh2Section::PhysicalGroups))
}

/// Records up to a closing line end inside the input.
pub proof fn lemma_node_records_bounds(s: Seq<u8>, pos: int)
    ensures
        node_records_at(s, pos) matches Ok((p, _)) ==> 0 <= pos < p <= s.len(),
    decreases s.len() - pos,
{
    lemma_words_not_empty();
    lemma_tag_line_bounds(s, pos, "$EndNodes".spec_bytes());
    if tag_line_at(s, pos, "$EndNodes".spec_bytes()) is Err {
        lemma_node_bounds(s, pos);
        if let Ok((p, _)) = node_at(s, pos) {
            lemma_node_records_bounds(s, p);
        }
    }
}

/// Records up to a closing line end inside the input.
pub proof fn lemma_element_records_bounds(s: Seq<u8>, pos: int)
    ensures
        element_records_at(s, pos) matches Ok((p, _)) ==> 0 <= pos < p <= s.len(),
    decreases s.len() - pos,
{
    lemma_words_not_empty();
    lemma_tag_line_bounds(s, pos, "$EndElements".spec_bytes());
    if tag_line_at(s, pos, "$EndElements".spec_bytes()) is Err {
        lemma_element_bounds(s, pos);
        if let Ok((p, _)) = element_at(s, pos) {
            lemma_element_records_bounds(s, p);
        }
    }
}

/// Records up to a closing line end inside the input.
pub proof fn lemma_group_records_bounds(s: Seq<u8>, pos: int)
    ensures
        group_records_at(s, pos) matches Ok((p, _)) ==> 0 <= pos < p <= s.len(),
    decreases s.len() - pos,
{
    lemma_words_not_empty();
    lemma_tag_line_bounds(s, pos, "$EndPhysicalNames".spec_bytes());
    if tag_line_at(s, pos, "$EndPhysicalNames".spec_bytes()) is Err {
        lemma_group_bounds(s, pos);
        if let Ok((p, _)) = group_at(s, pos) {
            lemma_group_records_bounds(s, p);
        }
    }
}

/// A node section ends behind its start and inside the input.
pub proof fn lemma_node_section_bounds(s: Seq<u8>, pos: int)
    ensures
        node_section_at(s, pos) matches Ok((p, _)) ==> 0 <= pos < p <= s.len(),
{
    lemma_words_not_empty();
    lemma_tag_line_bounds(s, pos, "$Nodes".spec_bytes());
    if let Ok(p1) = tag_line_at(s, pos, "$Nodes".spec_bytes()) {
        lemma_unsigned_bounds(s, p1);
        if let Ok((p, _)) = unsigned_at(s, p1) {
            lemma_line_end_bounds(s, p);
        }
        if let Ok((p2, _)) = count_line_at(s, p1) {
            lemma_node_records_bounds(s, p2);
        }
    }
}

/// An element section ends behind its start and inside the input.
pub proof fn lemma_element_section_bounds(s: Seq<u8>, pos: int)
    ensures
        element_section_at(s, pos) matches Ok((p, _)) ==> 0 <= pos < p <= s.len(),
{
    lemma_words_not_empty();
    lemma_tag_line_bounds(s, pos, "$Elements".spec_bytes());
    if let Ok(p1) = tag_line_at(s, pos, "$Elements".spec_bytes()) {
        lemma_unsigned_bounds(s, p1);
        if let Ok((p, _)) = unsigned_at(s, p1) {
            lemma_line_end_bounds(s, p);
        }
        if let Ok((p2, _)) = count_line_at(s, p1) {
            lemma_element_records_bounds(s, p2);
        }
    }
}

/// A section of physical groups ends behind its start and inside the input.
pub proof fn lemma_group_section_bounds(s: Seq<u8>, pos: int)
    ensures
        group_section_at(s, pos) matches Ok((p, _)) ==> 0 <= pos < p <= s.len(),
{
    lemma_words_not_empty();
    lemma_tag_line_bounds(s, pos, "$PhysicalNames".spec_bytes());
    if let Ok(p1) = tag_line_at(s, pos, "$PhysicalNames".spec_bytes()) {
        lemma_unsigned_bounds(s, p1);
        if let Ok((p, _)) = unsigned_at(s, p1) {
            lemma_line_end_bounds(s, p);
        }
        if let Ok((p2, _)) = count_line_at(s, p1) {
            lemma_group_records_bounds(s, p2);
        }
    }
}

/// A section that is skipped ends behind its start and inside the input.
pub proof fn lemma_unknown_section_bounds(s: Seq<u8>, pos: int)
    ensures
        unknown_section_at(s, pos) matches Ok((p, _)) ==> 0 <= pos < p <= s.len(),
{
    lemma_words_not_empty();
    if let Ok((body, name)) = section_name_at(s, pos) {
        lemma_run_end(s, pos + 1, solid());
        let end = run_end(s, pos + 1, solid());
        lemma_line_end_bounds(s, end);
        lemma_first_closing(s, body, closing_word(name));
        if let Some(q) = first_closing_at(s, body, closing_word(name)) {
            lemma_tag_line_bounds(s, q, closing_word(name));
        }
    }
}

} // verus!
