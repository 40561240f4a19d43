//! Writing then reading: what the encoder writes, the decoder reads back.
//!
//! The lemmas speak of an input that holds the written bytes at some position, whatever stands
//! before them, and go from the smallest pieces to whole documents. Floating-point text is read
//! and printed by code outside this library, so the statements on nodes are made of the
//! coordinates that are printed exactly: those whose printed text is read as the same double.
use crate::{EltModel, GroupModel, MeshModel, MeshShape, MshHeader, Node, Storage, Version};
use crate::decimal::{decimal, lemma_decimal_digits, lemma_decimal_round_trip, unsigned_at};
use crate::float::{double_text, whole_double};
use crate::lexical::{
    byte_at, digit, gap_at, has_at, hspace, lemma_run_end_is, line_end, name_byte, solid,
    tag_line_at, Failure, Fault,
};
use crate::parser::{
    after, ascii2_document_at, count_line_at, documents_at, element_at, element_records_at,
    element_section_at, element_section_warnings, elt_info_at, elt_parts, extra_tag_warnings,
    fields_at, format_footer_at, format_header_at, format_line_at, group_at, group_records_at,
    group_section_at, header_at, label_at, lemma_format_words, lemma_words_not_empty,
    marker_line_at, node_at, node_records_at, node_section_at, one_be, one_le, section_at,
    section_kind_at, sections_at, single_at, size_width_at, spaced_coordinate_at, storage_flag_at,
    version_at, EltInfo, EltRecord, Listing, Msh2Section, MshFailure, MshVersion, Reading, Warning,
};
use crate::writer::{
    dialect_line, element_bytes, element_records_bytes, element_section_bytes, group_bytes,
    group_records_bytes, group_section_bytes, header_bytes, marker_line, msh2_bytes,
    msh2_text_bytes, node_bytes, node_records_bytes, node_section_bytes, raw_tag, spaced_numbers,
    storage_flag, tag_line_bytes, version_word,
};
use vstd::utf8::{encode_utf8, encode_utf8_decode_utf8, encode_utf8_valid_utf8};
use vstd::prelude::*;
use vstd::string::StringSliceAdditionalSpecFns;

verus! {

/// An input that holds two words in a row holds the first, and behind it the second.
pub proof fn lemma_has_at_split(s: Seq<u8>, pos: int, first: Seq<u8>, second: Seq<u8>)
    requires
        has_at(s, pos, first + second),
    ensures
        has_at(s, pos, first),
        has_at(s, pos + first.len(), second),
{
    let both = first + second;
    let whole = s.subrange(pos, pos + both.len());
    assert(s.subrange(pos, pos + first.len()) =~= first) by {
        assert forall|i: int| 0 <= i < first.len() implies s.subrange(pos, pos + first.len())[i]
            == first[i] by {
            assert(whole[i] == both[i]);
        }
    }
    assert(s.subrange(pos + first.len(), pos + first.len() + second.len()) =~= second) by {
        assert forall|i: int| 0 <= i < second.len() implies s.subrange(
            pos + first.len(),
            pos + first.len() + second.len(),
        )[i] == second[i] by {
            assert(whole[first.len() + i] == both[first.len() + i]);
        }
    }
}

/// A byte of a word that the input holds is the byte of the input at its place.
pub proof fn lemma_has_at_byte(s: Seq<u8>, pos: int, word: Seq<u8>, i: int)
    requires
        has_at(s, pos, word),
        0 <= i < word.len(),
    ensures
        byte_at(s, pos + i) == Some(word[i]),
{
    assert(s.subrange(pos, pos + word.len())[i] == word[i]);
}

/// One space before a byte that is no space and no tab is a gap.
pub proof fn lemma_single_space(s: Seq<u8>, pos: int)
    requires
        byte_at(s, pos) == Some(0x20u8),
        byte_at(s, pos + 1) matches Some(b) ==> !(b == 0x20 || b == 0x09),
    ensures
        gap_at(s, pos) == Ok::<int, Failure>(pos + 1),
{
    lemma_run_end_is(s, pos, pos + 1, hspace());
}

/// A line feed ends a line.
pub proof fn lemma_line_feed(s: Seq<u8>, pos: int)
    requires
        byte_at(s, pos) == Some(0x0au8),
    ensures
        line_end(s, pos) == Ok::<int, Failure>(pos + 1),
{
    lemma_run_end_is(s, pos, pos, hspace());
}

/// A line that was written with a word is read as the line of that word.
pub proof fn lemma_tag_line_round_trip(s: Seq<u8>, pos: int, word: Seq<u8>)
    requires
        has_at(s, pos, tag_line_bytes(word)),
    ensures
        tag_line_at(s, pos, word) == Ok::<int, Failure>(pos + word.len() + 1),
{
    lemma_has_at_split(s, pos, word, seq![0x0au8]);
    lemma_has_at_byte(s, pos + word.len(), seq![0x0au8], 0);
    lemma_line_feed(s, pos + word.len());
}

/// A count that was written on a line of its own is read as that count.
pub proof fn lemma_count_line_round_trip(s: Seq<u8>, pos: int, count: u64)
    requires
        has_at(s, pos, tag_line_bytes(decimal(count as nat))),
    ensures
        count_line_at(s, pos) == Ok::<(int, u64), Failure>(
            (pos + decimal(count as nat).len() + 1, count),
        ),
{
    let digits = decimal(count as nat);
    lemma_has_at_split(s, pos, digits, seq![0x0au8]);
    lemma_has_at_byte(s, pos + digits.len(), seq![0x0au8], 0);
    lemma_decimal_round_trip(s, pos, count);
    lemma_line_feed(s, pos + digits.len());
}

/// The dialect that a written header names.
pub open spec fn dialect_of(header: MshHeader) -> MshVersion {
    MshVersion::of(header.version, header.storage != Storage::Ascii)
}

/// The line that names the dialect is read as it was written.
pub proof fn lemma_dialect_line_round_trip(s: Seq<u8>, pos: int, header: MshHeader)
    requires
        has_at(s, pos, dialect_line(header)),
    ensures
        format_line_at(s, pos) == Ok::<(int, MshVersion), Failure>(
            (pos + dialect_line(header).len(), dialect_of(header)),
        ),
        dialect_line(header).len() == 8,
{
    lemma_format_words();
    let word = version_word(header.version);
    let tail = seq![0x20u8, storage_flag(header.storage), 0x20u8, 0x38u8, 0x0au8];
    lemma_has_at_split(s, pos, word, tail);
    lemma_has_at_byte(s, pos, word, 0);
    lemma_has_at_byte(s, pos + 3, tail, 0);
    lemma_has_at_byte(s, pos + 3, tail, 1);
    lemma_has_at_byte(s, pos + 3, tail, 2);
    lemma_has_at_byte(s, pos + 3, tail, 3);
    lemma_has_at_byte(s, pos + 3, tail, 4);
    if header.version == Version::V41 {
        assert(!has_at(s, pos, "2.2".spec_bytes())) by {
            if has_at(s, pos, "2.2".spec_bytes()) {
                lemma_has_at_byte(s, pos, "2.2".spec_bytes(), 0);
            }
        }
    }
    assert(version_at(s, pos) == Ok::<(int, Version), Failure>((pos + 3, header.version)));
    lemma_single_space(s, pos + 3);
    assert(storage_flag_at(s, pos + 4) == Ok::<(int, bool), Failure>(
        (pos + 5, header.storage != Storage::Ascii),
    ));
    lemma_single_space(s, pos + 5);
    assert(size_width_at(s, pos + 6) == Ok::<int, Failure>(pos + 7));
    lemma_line_feed(s, pos + 7);
}

/// The line that shows the byte order is read as it was written, if it shows little-endian.
pub proof fn lemma_marker_line_round_trip(s: Seq<u8>, pos: int)
    requires
        has_at(s, pos, marker_line(Storage::BinaryLe)),
    ensures
        marker_line_at(s, pos) == Ok::<int, Failure>(pos + 5),
{
    lemma_has_at_split(s, pos, one_le(), seq![0x0au8]);
    lemma_has_at_byte(s, pos + 4, seq![0x0au8], 0);
    lemma_line_feed(s, pos + 4);
}

/// A big-endian byte-order line is refused as such.
pub proof fn lemma_big_endian_refused(s: Seq<u8>, pos: int)
    requires
        has_at(s, pos, one_be()),
    ensures
        marker_line_at(s, pos) == Err::<int, Failure>(
            Failure { fault: Fault::BigEndian, at: pos },
        ),
{
    assert(!has_at(s, pos, one_le())) by {
        if has_at(s, pos, one_le()) {
            lemma_has_at_byte(s, pos, one_le(), 0);
            lemma_has_at_byte(s, pos, one_be(), 0);
        }
    }
}

/// A header that was written for big-endian storage is not read: where the input holds its
/// format block, reading a header refuses the byte-order line as big-endian.
pub proof fn lemma_big_endian_header_refused(s: Seq<u8>, pos: int, header: MshHeader)
    requires
        has_at(s, pos, header_bytes(header)),
        header.storage == Storage::BinaryBe,
    ensures
        header_at(s, pos) == Err::<(int, MshVersion), Failure>(
            Failure { fault: Fault::BigEndian, at: pos + 20 },
        ),
{
    lemma_format_words();
    let open = tag_line_bytes("$MeshFormat".spec_bytes());
    let line = dialect_line(header);
    let marker = marker_line(header.storage);
    let close = tag_line_bytes("$EndMeshFormat".spec_bytes());
    lemma_has_at_split(s, pos, open + line + marker, close);
    lemma_has_at_split(s, pos, open + line, marker);
    lemma_has_at_split(s, pos, open, line);
    lemma_tag_line_round_trip(s, pos, "$MeshFormat".spec_bytes());
    assert(format_header_at(s, pos) == Ok::<int, Failure>(pos + 12));
    lemma_dialect_line_round_trip(s, pos + 12, header);
    lemma_has_at_split(s, pos + 20, one_be(), seq![0x0au8]);
    lemma_big_endian_refused(s, pos + 20);
}

/// Writing then reading a header: where the input holds the format block that was written
/// for `header`, reading a header there gives the dialect of `header` and stops behind the
/// block. A big-endian header is written and is not read: it is left out.
#[verifier::rlimit(40)]
pub proof fn lemma_header_round_trip(s: Seq<u8>, pos: int, header: MshHeader)
    requires
        has_at(s, pos, header_bytes(header)),
        header.storage != Storage::BinaryBe,
    ensures
        header_at(s, pos) == Ok::<(int, MshVersion), Failure>(
            (pos + header_bytes(header).len(), dialect_of(header)),
        ),
{
    lemma_format_words();
    let open = tag_line_bytes("$MeshFormat".spec_bytes());
    let line = dialect_line(header);
    let marker = marker_line(header.storage);
    let close = tag_line_bytes("$EndMeshFormat".spec_bytes());
    lemma_has_at_split(s, pos, open + line + marker, close);
    lemma_has_at_split(s, pos, open + line, marker);
    lemma_has_at_split(s, pos, open, line);
    lemma_tag_line_round_trip(s, pos, "$MeshFormat".spec_bytes());
    let p1 = pos + open.len();
    assert(format_header_at(s, pos) == Ok::<int, Failure>(p1));
    lemma_dialect_line_round_trip(s, p1, header);
    let p2 = p1 + line.len();
    if header.storage == Storage::BinaryLe {
        lemma_marker_line_round_trip(s, p2);
    }
    let p3 = p2 + marker.len();
    lemma_tag_line_round_trip(s, p3, "$EndMeshFormat".spec_bytes());
    assert(format_footer_at(s, p3) == Ok::<int, Failure>(p3 + close.len()));
}

/// An input that holds a word, and behind it another, holds the two in a row.
pub proof fn lemma_has_at_join(s: Seq<u8>, pos: int, first: Seq<u8>, second: Seq<u8>)
    requires
        has_at(s, pos, first),
        has_at(s, pos + first.len(), second),
    ensures
        has_at(s, pos, first + second),
{
    let both = first + second;
    assert(s.subrange(pos, pos + both.len()) =~= both) by {
        assert forall|i: int| 0 <= i < both.len() implies s.subrange(pos, pos + both.len())[i]
            == both[i] by {
            if i < first.len() {
                assert(s.subrange(pos, pos + first.len())[i] == first[i]);
            } else {
                assert(s.subrange(pos + first.len(), pos + first.len() + second.len())[i
                    - first.len()] == second[i - first.len()]);
            }
        }
    }
}

/// The text that is printed for the double with the bit pattern `bits` is a field, and read
/// as a double it gives `bits` again.
pub open spec fn prints_exactly(bits: u64) -> bool {
    let text = double_text(bits);
    &&& text.len() > 0
    &&& forall|i: int| 0 <= i < text.len() ==> solid()(#[trigger] text[i])
    &&& whole_double(text) == Some(bits)
}

/// Each of the three coordinates of `node` is printed exactly.
pub open spec fn node_prints_exactly(node: Node) -> bool {
    prints_exactly(node.x) && prints_exactly(node.y) && prints_exactly(node.z)
}

/// A coordinate that was written behind one space is read as it was written, if it is printed
/// exactly and a space or a line end follows it.
pub proof fn lemma_coordinate_round_trip(s: Seq<u8>, pos: int, bits: u64)
    requires
        byte_at(s, pos) == Some(0x20u8),
        has_at(s, pos + 1, double_text(bits)),
        prints_exactly(bits),
        byte_at(s, pos + 1 + double_text(bits).len()) matches Some(b) ==> !solid()(b),
    ensures
        spaced_coordinate_at(s, pos) == Ok::<(int, u64), Failure>(
            (pos + 1 + double_text(bits).len(), bits),
        ),
{
    let text = double_text(bits);
    let start = pos + 1;
    let end = start + text.len();
    lemma_has_at_byte(s, start, text, 0);
    assert(solid()(text[0]));
    lemma_single_space(s, pos);
    assert forall|j: int| start <= j < end implies solid()(#[trigger] s[j]) by {
        lemma_has_at_byte(s, start, text, j - start);
        assert(solid()(text[j - start]));
    }
    lemma_run_end_is(s, start, end, solid());
    assert(s.subrange(start, end) == text);
}

/// Writing then reading a node: where the input holds the line that was written for `node`,
/// reading a node there gives `node` and stops behind the line.
#[verifier::rlimit(40)]
pub proof fn lemma_node_round_trip(s: Seq<u8>, pos: int, node: Node)
    requires
        has_at(s, pos, node_bytes(node, Storage::Ascii)),
        node_prints_exactly(node),
    ensures
        node_at(s, pos) == Ok::<(int, Node), Failure>(
            (pos + node_bytes(node, Storage::Ascii).len(), node),
        ),
        node_bytes(node, Storage::Ascii).len() > 0,
        byte_at(s, pos) matches Some(b) && 0x30 <= b <= 0x39,
{
    let tag = decimal(node.tag as nat);
    let x = double_text(node.x);
    let y = double_text(node.y);
    let z = double_text(node.z);
    let sp = seq![0x20u8];
    let lf = seq![0x0au8];
    lemma_has_at_split(s, pos, tag + sp + x + sp + y + sp + z, lf);
    lemma_has_at_split(s, pos, tag + sp + x + sp + y + sp, z);
    lemma_has_at_split(s, pos, tag + sp + x + sp + y, sp);
    lemma_has_at_split(s, pos, tag + sp + x + sp, y);
    lemma_has_at_split(s, pos, tag + sp + x, sp);
    lemma_has_at_split(s, pos, tag + sp, x);
    lemma_has_at_split(s, pos, tag, sp);
    let p1 = pos + tag.len();
    let p2 = p1 + 1 + x.len();
    let p3 = p2 + 1 + y.len();
    let p4 = p3 + 1 + z.len();
    lemma_has_at_byte(s, p1, sp, 0);
    lemma_has_at_byte(s, p2, sp, 0);
    lemma_has_at_byte(s, p3, sp, 0);
    lemma_has_at_byte(s, p4, lf, 0);
    lemma_decimal_digits(node.tag as nat);
    lemma_has_at_byte(s, pos, tag, 0);
    lemma_decimal_round_trip(s, pos, node.tag);
    assert(unsigned_at(s, pos) == Ok::<(int, u64), Failure>((p1, node.tag)));
    lemma_coordinate_round_trip(s, p1, node.x);
    lemma_coordinate_round_trip(s, p2, node.y);
    lemma_coordinate_round_trip(s, p3, node.z);
    lemma_line_feed(s, p4);
}

/// The records of some nodes are the record of the first and the records of the others.
pub proof fn lemma_node_records_bytes_front(nodes: Seq<Node>, storage: Storage)
    requires
        nodes.len() > 0,
    ensures
        node_records_bytes(nodes, storage) == node_bytes(nodes[0], storage) + node_records_bytes(
            nodes.drop_first(),
            storage,
        ),
    decreases nodes.len(),
{
    if nodes.len() == 1 {
        assert(nodes.drop_last() =~= Seq::<Node>::empty());
        assert(nodes.drop_first() =~= Seq::<Node>::empty());
        assert(node_records_bytes(nodes, storage) =~= node_bytes(nodes[0], storage)
            + node_records_bytes(nodes.drop_first(), storage));
    } else {
        lemma_node_records_bytes_front(nodes.drop_last(), storage);
        assert(nodes.drop_last().drop_first() =~= nodes.drop_first().drop_last());
        assert(nodes.drop_first().last() == nodes.last());
        assert(nodes.drop_last()[0] == nodes[0]);
        assert(node_records_bytes(nodes, storage) =~= node_bytes(nodes[0], storage)
            + node_records_bytes(nodes.drop_first(), storage));
    }
}

/// Writing then reading records: where the input holds the lines that were written for
/// `nodes` and behind them the line that closes the section, reading records there gives
/// `nodes` and stops behind that line.
#[verifier::rlimit(40)]
pub proof fn lemma_node_records_round_trip(s: Seq<u8>, pos: int, nodes: Seq<Node>)
    requires
        has_at(
            s,
            pos,
            node_records_bytes(nodes, Storage::Ascii) + tag_line_bytes("$EndNodes".spec_bytes()),
        ),
        forall|i: int| 0 <= i < nodes.len() ==> node_prints_exactly(#[trigger] nodes[i]),
    ensures
        node_records_at(s, pos) == Ok::<(int, Seq<Node>), Failure>(
            (pos + node_records_bytes(nodes, Storage::Ascii).len() + 10, nodes),
        ),
    decreases nodes.len(),
{
    lemma_words_not_empty();
    let lines = node_records_bytes(nodes, Storage::Ascii);
    let close = tag_line_bytes("$EndNodes".spec_bytes());
    lemma_has_at_split(s, pos, lines, close);
    if nodes.len() == 0 {
        lemma_tag_line_round_trip(s, pos, "$EndNodes".spec_bytes());
        assert(nodes =~= Seq::<Node>::empty());
    } else {
        let first = node_bytes(nodes[0], Storage::Ascii);
        let others = node_records_bytes(nodes.drop_first(), Storage::Ascii);
        lemma_node_records_bytes_front(nodes, Storage::Ascii);
        lemma_has_at_split(s, pos, first, others);
        lemma_node_round_trip(s, pos, nodes[0]);
        assert(tag_line_at(s, pos, "$EndNodes".spec_bytes()) is Err) by {
            if has_at(s, pos, "$EndNodes".spec_bytes()) {
                lemma_has_at_byte(s, pos, "$EndNodes".spec_bytes(), 0);
            }
        }
        let next = pos + first.len();
        lemma_has_at_join(s, next, others, close);
        assert forall|i: int| 0 <= i < nodes.drop_first().len() implies node_prints_exactly(
            #[trigger] nodes.drop_first()[i],
        ) by {
            assert(nodes.drop_first()[i] == nodes[i + 1]);
        }
        lemma_node_records_round_trip(s, next, nodes.drop_first());
        assert(seq![nodes[0]] + nodes.drop_first() =~= nodes);
        assert(lines.len() == first.len() + others.len());
        assert(node_at(s, pos) == Ok::<(int, Node), Failure>((next, nodes[0])));
        assert(node_records_at(s, next) == Ok::<(int, Seq<Node>), Failure>(
            (next + others.len() + 10, nodes.drop_first()),
        ));
        assert(node_records_at(s, pos) == after(seq![nodes[0]], node_records_at(s, next)));
    }
}

/// Writing then reading a node section: where the input holds the section that was written
/// for `nodes`, reading a node section there gives `nodes`, with the count that they have, and
/// stops behind the section.
#[verifier::rlimit(40)]
pub proof fn lemma_node_section_round_trip(s: Seq<u8>, pos: int, nodes: Seq<Node>)
    requires
        has_at(s, pos, node_section_bytes(nodes, Storage::Ascii)),
        nodes.len() <= u64::MAX,
        forall|i: int| 0 <= i < nodes.len() ==> node_prints_exactly(#[trigger] nodes[i]),
    ensures
        node_section_at(s, pos) == Ok::<(int, Listing<Node>), Failure>(
            (
                pos + node_section_bytes(nodes, Storage::Ascii).len(),
                Listing { declared: nodes.len() as u64, items: nodes },
            ),
        ),
{
    lemma_words_not_empty();
    let open = tag_line_bytes("$Nodes".spec_bytes());
    let count = tag_line_bytes(decimal(nodes.len()));
    let lines = node_records_bytes(nodes, Storage::Ascii);
    let close = tag_line_bytes("$EndNodes".spec_bytes());
    lemma_has_at_split(s, pos, open + count + lines, close);
    lemma_has_at_split(s, pos, open + count, lines);
    lemma_has_at_split(s, pos, open, count);
    lemma_tag_line_round_trip(s, pos, "$Nodes".spec_bytes());
    let p1 = pos + open.len();
    lemma_count_line_round_trip(s, p1, nodes.len() as u64);
    let p2 = p1 + count.len();
    lemma_has_at_join(s, p2, lines, close);
    lemma_node_records_round_trip(s, p2, nodes);
}

/// The mesh that a written document of version 2.2 gives back: the nodes, and nothing else.
pub open spec fn nodes_only(mesh: MeshModel) -> MeshModel {
    MeshModel { nodes: mesh.nodes, elts: Seq::empty(), physical_groups: Seq::empty() }
}

/// No section opens at the end of the input.
pub proof fn lemma_no_section_at_end(s: Seq<u8>)
    ensures
        section_kind_at(s, s.len() as int) is Err,
{
    reveal(section_kind_at);
    lemma_words_not_empty();
}

/// Writing then reading the sections: where the input ends with the node section that was
/// written for `nodes`, reading sections there gives a mesh that holds these nodes and
/// nothing else, and warns of nothing.
pub proof fn lemma_sections_round_trip(s: Seq<u8>, pos: int, nodes: Seq<Node>)
    requires
        has_at(s, pos, node_section_bytes(nodes, Storage::Ascii)),
        pos + node_section_bytes(nodes, Storage::Ascii).len() == s.len(),
        nodes.len() <= u64::MAX,
        forall|i: int| 0 <= i < nodes.len() ==> node_prints_exactly(#[trigger] nodes[i]),
    ensures
        sections_at(s, pos, Reading::start()) == Ok::<(int, Reading), Failure>(
            (
                s.len() as int,
                Reading {
                    mesh: MeshModel {
                        nodes,
                        elts: Seq::empty(),
                        physical_groups: Seq::empty(),
                    },
                    warnings: Seq::empty(),
                },
            ),
        ),
{
    let open = tag_line_bytes("$Nodes".spec_bytes());
    let count = tag_line_bytes(decimal(nodes.len()));
    let lines = node_records_bytes(nodes, Storage::Ascii);
    let close = tag_line_bytes("$EndNodes".spec_bytes());
    let end = s.len() as int;
    let read = Reading {
        mesh: MeshModel { nodes, elts: Seq::empty(), physical_groups: Seq::empty() },
        warnings: Seq::empty(),
    };
    lemma_node_section_round_trip(s, pos, nodes);
    assert(section_kind_at(s, pos) == Ok::<(int, Msh2Section), Failure>(
        (pos, Msh2Section::Nodes),
    )) by {
        reveal(section_kind_at);
        lemma_has_at_split(s, pos, open + count + lines, close);
        lemma_has_at_split(s, pos, open + count, lines);
        lemma_has_at_split(s, pos, open, count);
        lemma_tag_line_round_trip(s, pos, "$Nodes".spec_bytes());
    }
    assert(section_at(s, pos, Msh2Section::Nodes, MeshModel::empty()) == Ok::<
        (int, Reading),
        Failure,
    >((end, read))) by {
        reveal(section_at);
    }
    lemma_no_section_at_end(s);
    let so_far = Reading { mesh: read.mesh, warnings: Reading::start().warnings + read.warnings };
    assert(so_far.warnings =~= Seq::<Warning>::empty());
    assert(so_far == read);
    assert(sections_at(s, end, read) == Ok::<(int, Reading), Failure>((end, read)));
}

/// Writing then reading: the text document of version 2.2 that is written for a mesh is read
/// as one document, which holds the nodes of the mesh in their order and warns of nothing.
/// This is said of the meshes whose coordinates are printed exactly.
#[verifier::rlimit(40)]
pub proof fn theorem_msh2_round_trip(mesh: MeshModel)
    requires
        mesh.nodes.len() <= u64::MAX,
        forall|i: int| 0 <= i < mesh.nodes.len() ==> node_prints_exactly(#[trigger] mesh.nodes[i]),
    ensures
        documents_at(msh2_bytes(mesh, Storage::Ascii), 0) == Ok::<Seq<Reading>, MshFailure>(
            seq![Reading { mesh: nodes_only(mesh), warnings: Seq::empty() }],
        ),
{
    lemma_words_not_empty();
    let header = MshHeader { version: Version::V22, storage: Storage::Ascii };
    let s = msh2_bytes(mesh, Storage::Ascii);
    let head = header_bytes(header);
    let body = node_section_bytes(mesh.nodes, Storage::Ascii);
    let end = s.len() as int;
    let read = Reading { mesh: nodes_only(mesh), warnings: Seq::empty() };
    assert(s.subrange(0, s.len() as int) =~= s);
    lemma_has_at_split(s, 0, head, body);
    lemma_header_round_trip(s, 0, header);
    lemma_sections_round_trip(s, head.len() as int, mesh.nodes);
    assert(single_at(s, 0, MshVersion::AsciiV22) == Ok::<(int, Reading), MshFailure>(
        (end, read),
    ));
    lemma_header_opens(s, 0, header);
    assert(documents_at(s, end) == Ok::<Seq<Reading>, MshFailure>(Seq::empty()));
    assert(seq![read] + Seq::<Reading>::empty() =~= seq![read]);
}

/// Numbers as fields are the first number behind a space and the others as fields.
pub proof fn lemma_spaced_numbers_front(numbers: Seq<u64>)
    requires
        numbers.len() > 0,
    ensures
        spaced_numbers(numbers) == seq![0x20u8] + decimal(numbers[0] as nat) + spaced_numbers(
            numbers.drop_first(),
        ),
    decreases numbers.len(),
{
    if numbers.len() == 1 {
        assert(numbers.drop_last() =~= Seq::<u64>::empty());
        assert(numbers.drop_first() =~= Seq::<u64>::empty());
        assert(spaced_numbers(numbers) =~= seq![0x20u8] + decimal(numbers[0] as nat)
            + spaced_numbers(numbers.drop_first()));
    } else {
        lemma_spaced_numbers_front(numbers.drop_last());
        assert(numbers.drop_last().drop_first() =~= numbers.drop_first().drop_last());
        assert(numbers.drop_first().last() == numbers.last());
        assert(numbers.drop_last()[0] == numbers[0]);
        assert(spaced_numbers(numbers) =~= seq![0x20u8] + decimal(numbers[0] as nat)
            + spaced_numbers(numbers.drop_first()));
    }
}

/// Numbers that were written as fields are read as they were written, if no digit follows
/// them.
pub proof fn lemma_fields_round_trip(s: Seq<u8>, pos: int, numbers: Seq<u64>)
    requires
        has_at(s, pos, spaced_numbers(numbers)),
        byte_at(s, pos + spaced_numbers(numbers).len()) matches Some(b) ==> !(0x30 <= b <= 0x39),
    ensures
        fields_at(s, pos, numbers.len()) == Ok::<(int, Seq<u64>), Failure>(
            (pos + spaced_numbers(numbers).len(), numbers),
        ),
        numbers.len() > 0 ==> byte_at(s, pos) == Some(0x20u8),
    decreases numbers.len(),
{
    if numbers.len() == 0 {
        assert(numbers =~= Seq::<u64>::empty());
    } else {
        let space = seq![0x20u8];
        let first = decimal(numbers[0] as nat);
        let others = spaced_numbers(numbers.drop_first());
        lemma_spaced_numbers_front(numbers);
        lemma_has_at_split(s, pos, space + first, others);
        lemma_has_at_split(s, pos, space, first);
        lemma_has_at_byte(s, pos, space, 0);
        lemma_decimal_digits(numbers[0] as nat);
        lemma_has_at_byte(s, pos + 1, first, 0);
        lemma_single_space(s, pos);
        let next = pos + 1 + first.len();
        if numbers.len() > 1 {
            lemma_spaced_numbers_front(numbers.drop_first());
            lemma_has_at_byte(s, next, others, 0);
        }
        lemma_decimal_round_trip(s, pos + 1, numbers[0]);
        lemma_fields_round_trip(s, next, numbers.drop_first());
        assert(seq![numbers[0]] + numbers.drop_first() =~= numbers);
    }
}

/// A label that was written is read as the shape it was written for, if no digit follows it.
pub proof fn lemma_label_round_trip(s: Seq<u8>, pos: int, shape: MeshShape)
    requires
        has_at(s, pos, shape.label()),
        byte_at(s, pos + shape.label().len()) matches Some(b) ==> !(0x30 <= b <= 0x39),
    ensures
        label_at(s, pos) == Ok::<(int, MeshShape), Failure>((pos + shape.label().len(), shape)),
        byte_at(s, pos) matches Some(b) && 0x30 <= b <= 0x39,
{
    let label = shape.label();
    let end = pos + label.len();
    lemma_has_at_byte(s, pos, label, 0);
    assert forall|j: int| pos <= j < end implies digit()(#[trigger] s[j]) by {
        lemma_has_at_byte(s, pos, label, j - pos);
    }
    lemma_run_end_is(s, pos, end, digit());
    assert(s.subrange(pos, end) == label);
    assert(MeshShape::Line.label()[0] == 0x31);
    assert(MeshShape::Triangle.label()[0] == 0x32);
    assert(MeshShape::Quad.label()[0] == 0x33);
    assert(MeshShape::Tetrahedron.label()[0] == 0x34);
    assert(MeshShape::Point.label().len() == 2);
}

/// An element can be written and read back: it has as many nodes as its shape joins, and
/// neither of its two tags is a zero that is there.
pub open spec fn element_is_written_exactly(elt: EltModel) -> bool {
    &&& elt.wf()
    &&& elt.physical_group != Some(0u64)
    &&& elt.geometry != Some(0u64)
}

/// Writing then reading an element: where the input holds the line that was written for
/// `elt`, reading an element there gives `elt`, with two tags declared, and stops behind the
/// line.
#[verifier::rlimit(40)]
pub proof fn lemma_element_round_trip(s: Seq<u8>, pos: int, elt: EltModel)
    requires
        has_at(s, pos, element_bytes(elt)),
        element_is_written_exactly(elt),
    ensures
        element_at(s, pos) == Ok::<(int, EltRecord), Failure>(
            (pos + element_bytes(elt).len(), EltRecord { elt, num_tags: 2 }),
        ),
        byte_at(s, pos) matches Some(b) && 0x30 <= b <= 0x39,
{
    let tag = decimal(elt.tag as nat);
    let label = elt.ty.label();
    let tags = seq![raw_tag(elt.physical_group), raw_tag(elt.geometry)];
    let info = spaced_numbers(tags);
    let nodes = spaced_numbers(elt.nodes);
    let sp = seq![0x20u8];
    let two = seq![0x20u8, 0x32u8];
    let lf = seq![0x0au8];
    lemma_has_at_split(s, pos, tag + sp + label + two + info + nodes, lf);
    lemma_has_at_split(s, pos, tag + sp + label + two + info, nodes);
    lemma_has_at_split(s, pos, tag + sp + label + two, info);
    lemma_has_at_split(s, pos, tag + sp + label, two);
    lemma_has_at_split(s, pos, tag + sp, label);
    lemma_has_at_split(s, pos, tag, sp);
    let p1 = pos + tag.len();
    let g1 = p1 + 1;
    let p2 = g1 + label.len();
    let g2 = p2 + 1;
    let q = g2 + 1;
    let p3 = q + info.len();
    let p4 = p3 + nodes.len();
    lemma_has_at_byte(s, p1, sp, 0);
    lemma_has_at_byte(s, p2, two, 0);
    lemma_has_at_byte(s, p2, two, 1);
    lemma_has_at_byte(s, p4, lf, 0);
    lemma_decimal_digits(elt.tag as nat);
    lemma_has_at_byte(s, pos, tag, 0);
    lemma_decimal_round_trip(s, pos, elt.tag);
    lemma_label_round_trip(s, g1, elt.ty);
    lemma_single_space(s, p1);
    lemma_single_space(s, p2);
    lemma_spaced_numbers_front(tags);
    lemma_has_at_byte(s, q, info, 0);
    assert(decimal(2) =~= seq![0x32u8]);
    assert(s.subrange(g2, g2 + 1) =~= decimal(2));
    lemma_decimal_round_trip(s, g2, 2);
    lemma_spaced_numbers_front(elt.nodes);
    lemma_has_at_byte(s, p3, nodes, 0);
    lemma_fields_round_trip(s, q, tags);
    lemma_fields_round_trip(s, p3, elt.nodes);
    lemma_line_feed(s, p4);
    assert(elt_info_at(s, g2) == Ok::<(int, EltInfo), Failure>(
        (
            p3,
            EltInfo {
                physical_group: raw_tag(elt.physical_group),
                geometry: raw_tag(elt.geometry),
                num_tags: 2,
            },
        ),
    ));
}

/// The records of elements as they are read back: each with two tags declared.
pub open spec fn records_of(elts: Seq<EltModel>) -> Seq<EltRecord> {
    Seq::new(elts.len(), |i: int| EltRecord { elt: elts[i], num_tags: 2 })
}

/// Records with two tags declared warn of nothing, and their elements are those they were
/// made of.
pub proof fn lemma_records_of(elts: Seq<EltModel>)
    ensures
        extra_tag_warnings(records_of(elts)) == Seq::<Warning>::empty(),
        elt_parts(records_of(elts)) == elts,
    decreases elts.len(),
{
    assert(elt_parts(records_of(elts)) =~= elts);
    if elts.len() > 0 {
        lemma_records_of(elts.drop_last());
        assert(records_of(elts).drop_last() =~= records_of(elts.drop_last()));
        assert(extra_tag_warnings(records_of(elts)) =~= Seq::<Warning>::empty());
    }
}

/// The records of some elements are the record of the first and the records of the others.
pub proof fn lemma_element_records_bytes_front(elts: Seq<EltModel>)
    requires
        elts.len() > 0,
    ensures
        element_records_bytes(elts) == element_bytes(elts[0]) + element_records_bytes(
            elts.drop_first(),
        ),
    decreases elts.len(),
{
    if elts.len() == 1 {
        assert(elts.drop_last() =~= Seq::<EltModel>::empty());
        assert(elts.drop_first() =~= Seq::<EltModel>::empty());
        assert(element_records_bytes(elts) =~= element_bytes(elts[0]) + element_records_bytes(
            elts.drop_first(),
        ));
    } else {
        lemma_element_records_bytes_front(elts.drop_last());
        assert(elts.drop_last().drop_first() =~= elts.drop_first().drop_last());
        assert(elts.drop_first().last() == elts.last());
        assert(elts.drop_last()[0] == elts[0]);
        assert(element_records_bytes(elts) =~= element_bytes(elts[0]) + element_records_bytes(
            elts.drop_first(),
        ));
    }
}

/// Writing then reading element records: where the input holds the lines that were written
/// for `elts` and behind them the line that closes the section, reading records there gives
/// `elts`, each with two tags declared, and stops behind that line.
#[verifier::rlimit(40)]
pub proof fn lemma_element_records_round_trip(s: Seq<u8>, pos: int, elts: Seq<EltModel>)
    requires
        has_at(
            s,
            pos,
            element_records_bytes(elts) + tag_line_bytes("$EndElements".spec_bytes()),
        ),
        forall|i: int| 0 <= i < elts.len() ==> element_is_written_exactly(#[trigger] elts[i]),
    ensures
        element_records_at(s, pos) == Ok::<(int, Seq<EltRecord>), Failure>(
            (pos + element_records_bytes(elts).len() + 13, records_of(elts)),
        ),
    decreases elts.len(),
{
    lemma_words_not_empty();
    let lines = element_records_bytes(elts);
    let close = tag_line_bytes("$EndElements".spec_bytes());
    lemma_has_at_split(s, pos, lines, close);
    if elts.len() == 0 {
        lemma_tag_line_round_trip(s, pos, "$EndElements".spec_bytes());
        assert(records_of(elts) =~= Seq::<EltRecord>::empty());
    } else {
        let first = element_bytes(elts[0]);
        let others = element_records_bytes(elts.drop_first());
        lemma_element_records_bytes_front(elts);
        lemma_has_at_split(s, pos, first, others);
        lemma_element_round_trip(s, pos, elts[0]);
        assert(tag_line_at(s, pos, "$EndElements".spec_bytes()) is Err) by {
            if has_at(s, pos, "$EndElements".spec_bytes()) {
                lemma_has_at_byte(s, pos, "$EndElements".spec_bytes(), 0);
            }
        }
        let next = pos + first.len();
        lemma_has_at_join(s, next, others, close);
        assert forall|i: int| 0 <= i < elts.drop_first().len() implies element_is_written_exactly(
            #[trigger] elts.drop_first()[i],
        ) by {
            assert(elts.drop_first()[i] == elts[i + 1]);
        }
        lemma_element_records_round_trip(s, next, elts.drop_first());
        assert(seq![records_of(elts)[0]] + records_of(elts.drop_first()) =~= records_of(elts));
        assert(lines.len() == first.len() + others.len());
        assert(element_records_at(s, pos) == after(
            seq![EltRecord { elt: elts[0], num_tags: 2 }],
            element_records_at(s, next),
        ));
    }
}

/// Writing then reading an element section: where the input holds the section that was
/// written for `elts`, reading an element section there gives `elts`, with the count that they
/// have, and stops behind the section.
#[verifier::rlimit(40)]
pub proof fn lemma_element_section_round_trip(s: Seq<u8>, pos: int, elts: Seq<EltModel>)
    requires
        has_at(s, pos, element_section_bytes(elts)),
        elts.len() <= u64::MAX,
        forall|i: int| 0 <= i < elts.len() ==> element_is_written_exactly(#[trigger] elts[i]),
    ensures
        element_section_at(s, pos) == Ok::<(int, Listing<EltRecord>), Failure>(
            (
                pos + element_section_bytes(elts).len(),
                Listing { declared: elts.len() as u64, items: records_of(elts) },
            ),
        ),
        tag_line_at(s, pos, "$Elements".spec_bytes()) is Ok,
{
    lemma_words_not_empty();
    let open = tag_line_bytes("$Elements".spec_bytes());
    let count = tag_line_bytes(decimal(elts.len()));
    let lines = element_records_bytes(elts);
    let close = tag_line_bytes("$EndElements".spec_bytes());
    lemma_has_at_split(s, pos, open + count + lines, close);
    lemma_has_at_split(s, pos, open + count, lines);
    lemma_has_at_split(s, pos, open, count);
    lemma_tag_line_round_trip(s, pos, "$Elements".spec_bytes());
    let p1 = pos + open.len();
    lemma_count_line_round_trip(s, p1, elts.len() as u64);
    let p2 = p1 + count.len();
    lemma_has_at_join(s, p2, lines, close);
    lemma_element_records_round_trip(s, p2, elts);
}

/// A physical group can be written and read back: its dimension is at most 3, and its name
/// holds no double quote and no line break.
pub open spec fn group_is_written_exactly(group: GroupModel) -> bool {
    &&& group.dim <= 3
    &&& forall|i: int|
        0 <= i < encode_utf8(group.name).len() ==> name_byte()(
            #[trigger] encode_utf8(group.name)[i],
        )
}

/// Writing then reading a physical group: where the input holds the line that was written for
/// `group`, reading a physical group there gives `group` and stops behind the line.
#[verifier::rlimit(40)]
pub proof fn lemma_group_round_trip(s: Seq<u8>, pos: int, group: GroupModel)
    requires
        has_at(s, pos, group_bytes(group)),
        group_is_written_exactly(group),
    ensures
        group_at(s, pos) == Ok::<(int, GroupModel), Failure>(
            (pos + group_bytes(group).len(), group),
        ),
        byte_at(s, pos) matches Some(b) && 0x30 <= b <= 0x39,
{
    let dim = seq![(0x30 + group.dim) as u8, 0x20u8];
    let tag = decimal(group.tag as nat);
    let quote = seq![0x20u8, 0x22u8];
    let name = encode_utf8(group.name);
    let close = seq![0x22u8, 0x0au8];
    lemma_has_at_split(s, pos, dim + tag + quote + name, close);
    lemma_has_at_split(s, pos, dim + tag + quote, name);
    lemma_has_at_split(s, pos, dim + tag, quote);
    lemma_has_at_split(s, pos, dim, tag);
    let p1 = pos + 2;
    let p2 = p1 + tag.len();
    let q = p2 + 2;
    let end = q + name.len();
    lemma_has_at_byte(s, pos, dim, 0);
    lemma_has_at_byte(s, pos, dim, 1);
    lemma_has_at_byte(s, p2, quote, 0);
    lemma_has_at_byte(s, p2, quote, 1);
    lemma_has_at_byte(s, end, close, 0);
    lemma_has_at_byte(s, end, close, 1);
    lemma_decimal_digits(group.tag as nat);
    lemma_has_at_byte(s, p1, tag, 0);
    lemma_single_space(s, pos + 1);
    lemma_decimal_round_trip(s, p1, group.tag);
    lemma_single_space(s, p2);
    assert forall|j: int| q <= j < end implies name_byte()(#[trigger] s[j]) by {
        lemma_has_at_byte(s, q, name, j - q);
        assert(name_byte()(name[j - q]));
    }
    lemma_run_end_is(s, q, end, name_byte());
    assert(s.subrange(q, end) == name);
    encode_utf8_valid_utf8(group.name);
    encode_utf8_decode_utf8(group.name);
    lemma_line_feed(s, end + 1);
}

/// The records of some groups are the record of the first and the records of the others.
pub proof fn lemma_group_records_bytes_front(groups: Seq<GroupModel>)
    requires
        groups.len() > 0,
    ensures
        group_records_bytes(groups) == group_bytes(groups[0]) + group_records_bytes(
            groups.drop_first(),
        ),
    decreases groups.len(),
{
    if groups.len() == 1 {
        assert(groups.drop_last() =~= Seq::<GroupModel>::empty());
        assert(groups.drop_first() =~= Seq::<GroupModel>::empty());
        assert(group_records_bytes(groups) =~= group_bytes(groups[0]) + group_records_bytes(
            groups.drop_first(),
        ));
    } else {
        lemma_group_records_bytes_front(groups.drop_last());
        assert(groups.drop_last().drop_first() =~= groups.drop_first().drop_last());
        assert(groups.drop_first().last() == groups.last());
        assert(groups.drop_last()[0] == groups[0]);
        assert(group_records_bytes(groups) =~= group_bytes(groups[0]) + group_records_bytes(
            groups.drop_first(),
        ));
    }
}

/// Writing then reading physical-group records: where the input holds the lines that were
/// written for `groups` and behind them the line that closes the section, reading records
/// there gives `groups` and stops behind that line.
#[verifier::rlimit(40)]
pub proof fn lemma_group_records_round_trip(s: Seq<u8>, pos: int, groups: Seq<GroupModel>)
    requires
        has_at(
            s,
            pos,
            group_records_bytes(groups) + tag_line_bytes("$EndPhysicalNames".spec_bytes()),
        ),
        forall|i: int| 0 <= i < groups.len() ==> group_is_written_exactly(#[trigger] groups[i]),
    ensures
        group_records_at(s, pos) == Ok::<(int, Seq<GroupModel>), Failure>(
            (pos + group_records_bytes(groups).len() + 18, groups),
        ),
    decreases groups.len(),
{
    lemma_words_not_empty();
    let lines = group_records_bytes(groups);
    let close = tag_line_bytes("$EndPhysicalNames".spec_bytes());
    lemma_has_at_split(s, pos, lines, close);
    if groups.len() == 0 {
        lemma_tag_line_round_trip(s, pos, "$EndPhysicalNames".spec_bytes());
        assert(groups =~= Seq::<GroupModel>::empty());
    } else {
        let first = group_bytes(groups[0]);
        let others = group_records_bytes(groups.drop_first());
        lemma_group_records_bytes_front(groups);
        lemma_has_at_split(s, pos, first, others);
        lemma_group_round_trip(s, pos, groups[0]);
        assert(tag_line_at(s, pos, "$EndPhysicalNames".spec_bytes()) is Err) by {
            if has_at(s, pos, "$EndPhysicalNames".spec_bytes()) {
                lemma_has_at_byte(s, pos, "$EndPhysicalNames".spec_bytes(), 0);
            }
        }
        let next = pos + first.len();
        lemma_has_at_join(s, next, others, close);
        assert forall|i: int| 0 <= i < groups.drop_first().len() implies group_is_written_exactly(
            #[trigger] groups.drop_first()[i],
        ) by {
            assert(groups.drop_first()[i] == groups[i + 1]);
        }
        lemma_group_records_round_trip(s, next, groups.drop_first());
        assert(seq![groups[0]] + groups.drop_first() =~= groups);
        assert(lines.len() == first.len() + others.len());
        assert(group_records_at(s, pos) == after(seq![groups[0]], group_records_at(s, next)));
    }
}

/// Writing then reading a section of physical groups: where the input holds the section that
/// was written for `groups`, reading such a section there gives `groups`, with the count that
/// they have, and stops behind the section.
#[verifier::rlimit(40)]
pub proof fn lemma_group_section_round_trip(s: Seq<u8>, pos: int, groups: Seq<GroupModel>)
    requires
        has_at(s, pos, group_section_bytes(groups)),
        groups.len() <= u64::MAX,
        forall|i: int| 0 <= i < groups.len() ==> group_is_written_exactly(#[trigger] groups[i]),
    ensures
        group_section_at(s, pos) == Ok::<(int, Listing<GroupModel>), Failure>(
            (
                pos + group_section_bytes(groups).len(),
                Listing { declared: groups.len() as u64, items: groups },
            ),
        ),
        tag_line_at(s, pos, "$PhysicalNames".spec_bytes()) is Ok,
{
    lemma_words_not_empty();
    let open = tag_line_bytes("$PhysicalNames".spec_bytes());
    let count = tag_line_bytes(decimal(groups.len()));
    let lines = group_records_bytes(groups);
    let close = tag_line_bytes("$EndPhysicalNames".spec_bytes());
    lemma_has_at_split(s, pos, open + count + lines, close);
    lemma_has_at_split(s, pos, open + count, lines);
    lemma_has_at_split(s, pos, open, count);
    lemma_tag_line_round_trip(s, pos, "$PhysicalNames".spec_bytes());
    let p1 = pos + open.len();
    lemma_count_line_round_trip(s, p1, groups.len() as u64);
    let p2 = p1 + count.len();
    lemma_has_at_join(s, p2, lines, close);
    lemma_group_records_round_trip(s, p2, groups);
}

/// A section that is read is one step of reading sections.
pub proof fn lemma_sections_step(s: Seq<u8>, pos: int, so_far: Reading)
    requires
        section_kind_at(s, pos) matches Ok((_, kind)) && section_at(s, pos, kind, so_far.mesh)
            is Ok,
    ensures
        sections_at(s, pos, so_far) == sections_at(
            s,
            section_at(s, pos, section_kind_at(s, pos)->Ok_0.1, so_far.mesh)->Ok_0.0,
            Reading {
                mesh: section_at(s, pos, section_kind_at(s, pos)->Ok_0.1, so_far.mesh)->Ok_0.1.mesh,
                warnings: so_far.warnings + section_at(
                    s,
                    pos,
                    section_kind_at(s, pos)->Ok_0.1,
                    so_far.mesh,
                )->Ok_0.1.warnings,
            },
        ),
{
}

/// Where the input holds a node section that was written, a node section opens, and reading
/// it puts the nodes into the mesh and warns of nothing.
pub proof fn lemma_nodes_step(s: Seq<u8>, pos: int, nodes: Seq<Node>, mesh: MeshModel)
    requires
        has_at(s, pos, node_section_bytes(nodes, Storage::Ascii)),
        nodes.len() <= u64::MAX,
        forall|i: int| 0 <= i < nodes.len() ==> node_prints_exactly(#[trigger] nodes[i]),
    ensures
        section_kind_at(s, pos) == Ok::<(int, Msh2Section), Failure>((pos, Msh2Section::Nodes)),
        section_at(s, pos, Msh2Section::Nodes, mesh) == Ok::<(int, Reading), Failure>(
            (
                pos + node_section_bytes(nodes, Storage::Ascii).len(),
                Reading { mesh: MeshModel { nodes, ..mesh }, warnings: Seq::empty() },
            ),
        ),
{
    reveal(section_kind_at);
    reveal(section_at);
    lemma_node_section_round_trip(s, pos, nodes);
}

/// Where the input holds an element section that was written, an element section opens, and
/// reading it puts the elements into the mesh and warns of nothing.
pub proof fn lemma_elements_step(s: Seq<u8>, pos: int, elts: Seq<EltModel>, mesh: MeshModel)
    requires
        has_at(s, pos, element_section_bytes(elts)),
        elts.len() <= u64::MAX,
        forall|i: int| 0 <= i < elts.len() ==> element_is_written_exactly(#[trigger] elts[i]),
    ensures
        section_kind_at(s, pos) == Ok::<(int, Msh2Section), Failure>(
            (pos, Msh2Section::Elements),
        ),
        section_at(s, pos, Msh2Section::Elements, mesh) == Ok::<(int, Reading), Failure>(
            (
                pos + element_section_bytes(elts).len(),
                Reading { mesh: MeshModel { elts, ..mesh }, warnings: Seq::empty() },
            ),
        ),
{
    reveal(section_kind_at);
    reveal(section_at);
    lemma_words_not_empty();
    lemma_element_section_round_trip(s, pos, elts);
    lemma_records_of(elts);
    assert(!has_at(s, pos, "$Nodes".spec_bytes())) by {
        if has_at(s, pos, "$Nodes".spec_bytes()) {
            lemma_has_at_byte(s, pos, "$Nodes".spec_bytes(), 1);
            lemma_has_at_byte(s, pos, "$Elements".spec_bytes(), 1);
        }
    }
    let listing = Listing { declared: elts.len() as u64, items: records_of(elts) };
    assert(element_section_warnings(listing) =~= Seq::<Warning>::empty());
}

/// Where the input holds a section of physical groups that was written, such a section
/// opens, and reading it puts the groups into the mesh and warns of nothing.
pub proof fn lemma_groups_step(s: Seq<u8>, pos: int, groups: Seq<GroupModel>, mesh: MeshModel)
    requires
        has_at(s, pos, group_section_bytes(groups)),
        groups.len() <= u64::MAX,
        forall|i: int| 0 <= i < groups.len() ==> group_is_written_exactly(#[trigger] groups[i]),
    ensures
        section_kind_at(s, pos) == Ok::<(int, Msh2Section), Failure>(
            (pos, Msh2Section::PhysicalGroups),
        ),
        section_at(s, pos, Msh2Section::PhysicalGroups, mesh) == Ok::<(int, Reading), Failure>(
            (
                pos + group_section_bytes(groups).len(),
                Reading {
                    mesh: MeshModel { physical_groups: groups, ..mesh },
                    warnings: Seq::empty(),
                },
            ),
        ),
{
    reveal(section_kind_at);
    reveal(section_at);
    lemma_words_not_empty();
    lemma_group_section_round_trip(s, pos, groups);
    assert(!has_at(s, pos, "$Nodes".spec_bytes())) by {
        if has_at(s, pos, "$Nodes".spec_bytes()) {
            lemma_has_at_byte(s, pos, "$Nodes".spec_bytes(), 1);
            lemma_has_at_byte(s, pos, "$PhysicalNames".spec_bytes(), 1);
        }
    }
    assert(!has_at(s, pos, "$Elements".spec_bytes())) by {
        if has_at(s, pos, "$Elements".spec_bytes()) {
            lemma_has_at_byte(s, pos, "$Elements".spec_bytes(), 1);
            lemma_has_at_byte(s, pos, "$PhysicalNames".spec_bytes(), 1);
        }
    }
}

/// All of `mesh` can be written as text and read back.
pub open spec fn mesh_is_written_exactly(mesh: MeshModel) -> bool {
    &&& mesh.nodes.len() <= u64::MAX
    &&& mesh.elts.len() <= u64::MAX
    &&& mesh.physical_groups.len() <= u64::MAX
    &&& forall|i: int| 0 <= i < mesh.nodes.len() ==> node_prints_exactly(#[trigger] mesh.nodes[i])
    &&& forall|i: int|
        0 <= i < mesh.elts.len() ==> element_is_written_exactly(#[trigger] mesh.elts[i])
    &&& forall|i: int|
        0 <= i < mesh.physical_groups.len() ==> group_is_written_exactly(
            #[trigger] mesh.physical_groups[i],
        )
}

/// Writing then reading the sections of a whole mesh: where the input ends with the three
/// sections that were written for `mesh`, reading sections there gives `mesh` and warns of
/// nothing.
#[verifier::rlimit(40)]
pub proof fn lemma_text_sections_round_trip(s: Seq<u8>, pos: int, mesh: MeshModel)
    requires
        has_at(
            s,
            pos,
            node_section_bytes(mesh.nodes, Storage::Ascii) + element_section_bytes(mesh.elts)
                + group_section_bytes(mesh.physical_groups),
        ),
        pos + node_section_bytes(mesh.nodes, Storage::Ascii).len() + element_section_bytes(
            mesh.elts,
        ).len() + group_section_bytes(mesh.physical_groups).len() == s.len(),
        mesh_is_written_exactly(mesh),
    ensures
        sections_at(s, pos, Reading::start()) == Ok::<(int, Reading), Failure>(
            (s.len() as int, Reading { mesh, warnings: Seq::empty() }),
        ),
{
    let nodes = node_section_bytes(mesh.nodes, Storage::Ascii);
    let elts = element_section_bytes(mesh.elts);
    let groups = group_section_bytes(mesh.physical_groups);
    lemma_has_at_split(s, pos, nodes + elts, groups);
    lemma_has_at_split(s, pos, nodes, elts);
    let p1 = pos + nodes.len();
    let p2 = p1 + elts.len();
    let end = s.len() as int;
    let none = Seq::<Warning>::empty();
    let m0 = MeshModel::empty();
    let m1 = MeshModel { nodes: mesh.nodes, ..m0 };
    let m2 = MeshModel { elts: mesh.elts, ..m1 };
    let m3 = MeshModel { physical_groups: mesh.physical_groups, ..m2 };
    assert(m3 == mesh);
    assert(none + none =~= none);
    lemma_nodes_step(s, pos, mesh.nodes, m0);
    lemma_elements_step(s, p1, mesh.elts, m1);
    lemma_groups_step(s, p2, mesh.physical_groups, m2);
    lemma_no_section_at_end(s);
    lemma_sections_step(s, pos, Reading::start());
    lemma_sections_step(s, p1, Reading { mesh: m1, warnings: none });
    lemma_sections_step(s, p2, Reading { mesh: m2, warnings: none });
    assert(sections_at(s, end, Reading { mesh: m3, warnings: none }) == Ok::<
        (int, Reading),
        Failure,
    >((end, Reading { mesh: m3, warnings: none })));
}

/// Writing then reading a whole mesh, up to the end of the document: the text document of
/// version 2.2 that is written for all of a mesh is read from its first byte to its last, and
/// gives the mesh and no warning.
#[verifier::rlimit(40)]
pub proof fn lemma_text_document_round_trip(mesh: MeshModel)
    requires
        mesh_is_written_exactly(mesh),
    ensures
        ascii2_document_at(msh2_text_bytes(mesh), 0) == Ok::<(int, Reading), MshFailure>(
            (msh2_text_bytes(mesh).len() as int, Reading { mesh, warnings: Seq::empty() }),
        ),
        has_at(msh2_text_bytes(mesh), 0, "$MeshFormat".spec_bytes()),
        header_at(msh2_text_bytes(mesh), 0) matches Ok((_, dialect)) && dialect
            == MshVersion::AsciiV22,
{
    let header = MshHeader { version: Version::V22, storage: Storage::Ascii };
    let s = msh2_text_bytes(mesh);
    let head = header_bytes(header);
    let nodes = node_section_bytes(mesh.nodes, Storage::Ascii);
    let elts = element_section_bytes(mesh.elts);
    let groups = group_section_bytes(mesh.physical_groups);
    assert(s =~= head + (nodes + elts + groups));
    assert(s.subrange(0, s.len() as int) =~= s);
    lemma_has_at_split(s, 0, head, nodes + elts + groups);
    lemma_header_round_trip(s, 0, header);
    lemma_header_opens(s, 0, header);
    lemma_text_sections_round_trip(s, head.len() as int, mesh);
}

/// Writing then reading a whole mesh: the text document of version 2.2 that is written for
/// all of a mesh is read as one document, which holds the nodes, the elements and the
/// physical groups of the mesh in their order and warns of nothing. This is said of the
/// meshes that can be written exactly: a tag that is there and is zero is written as a tag
/// that is missing, and is read as such.
#[verifier::rlimit(40)]
pub proof fn theorem_msh2_text_round_trip(mesh: MeshModel)
    requires
        mesh_is_written_exactly(mesh),
    ensures
        documents_at(msh2_text_bytes(mesh), 0) == Ok::<Seq<Reading>, MshFailure>(
            seq![Reading { mesh, warnings: Seq::empty() }],
        ),
{
    let s = msh2_text_bytes(mesh);
    let read = Reading { mesh, warnings: Seq::empty() };
    lemma_words_not_empty();
    lemma_text_document_round_trip(mesh);
    assert(documents_at(s, s.len() as int) == Ok::<Seq<Reading>, MshFailure>(Seq::empty()));
    assert(seq![read] + Seq::<Reading>::empty() =~= seq![read]);
}

/// Where the input holds a format block that was written, it holds the word that opens one.
pub proof fn lemma_header_opens(s: Seq<u8>, pos: int, header: MshHeader)
    requires
        has_at(s, pos, header_bytes(header)),
    ensures
        has_at(s, pos, "$MeshFormat".spec_bytes()),
{
    lemma_has_at_split(
        s,
        pos,
        tag_line_bytes("$MeshFormat".spec_bytes()) + dialect_line(header) + marker_line(
            header.storage,
        ),
        tag_line_bytes("$EndMeshFormat".spec_bytes()),
    );
    lemma_has_at_split(
        s,
        pos,
        tag_line_bytes("$MeshFormat".spec_bytes()) + dialect_line(header),
        marker_line(header.storage),
    );
    lemma_has_at_split(s, pos, tag_line_bytes("$MeshFormat".spec_bytes()), dialect_line(header));
    lemma_has_at_split(s, pos, "$MeshFormat".spec_bytes(), seq![0x0au8]);
}

} // verus!
