//! The encoder: the format block and the node section, as text or as raw bytes.
//!
//! What is written is a function of the mesh, the version and the storage: the same input
//! gives the same bytes.
use crate::{
    EltModel, GroupModel, MeshElt, MeshModel, MeshShape, Msh, MshHeader, Node, PhysicalGroup,
    Storage, Tag, Version,
};
use crate::decimal::{decimal, push_decimal};
use crate::float::{double_text, format_double};
use crate::lexical::append_bytes;
use crate::parser::{one_be, one_le};
use vstd::prelude::*;
use vstd::string::StringSliceAdditionalSpecFns;
use vstd::utf8::encode_utf8;

verus! {

/// The `count` lowest bytes of `x`, the lowest first.
pub open spec fn low_bytes(x: nat, count: nat) -> Seq<u8>
    decreases count,
{
    if count == 0 {
        Seq::empty()
    } else {
        seq![(x % 256) as u8] + low_bytes(x / 256, (count - 1) as nat)
    }
}

/// The eight bytes of `x`, the lowest first.
pub open spec fn le_bytes(x: u64) -> Seq<u8> {
    low_bytes(x as nat, 8)
}

/// The eight bytes of `x`, the highest first.
pub open spec fn be_bytes(x: u64) -> Seq<u8> {
    le_bytes(x).reverse()
}

/// The eight bytes of `x` in the byte order of `storage`.
pub open spec fn raw_bytes(x: u64, storage: Storage) -> Seq<u8> {
    if storage == Storage::BinaryBe {
        be_bytes(x)
    } else {
        le_bytes(x)
    }
}

/// The token that names a version.
pub open spec fn version_word(version: Version) -> Seq<u8> {
    match version {
        Version::V22 => "2.2".spec_bytes(),
        Version::V41 => "4.1".spec_bytes(),
    }
}

/// The storage flag: `0` for text, `1` for binary.
pub open spec fn storage_flag(storage: Storage) -> u8 {
    match storage {
        Storage::Ascii => 0x30,
        Storage::BinaryLe => 0x31,
        Storage::BinaryBe => 0x31,
    }
}

/// The line that shows the byte order of a binary document; a text document has none.
pub open spec fn marker_line(storage: Storage) -> Seq<u8> {
    match storage {
        Storage::Ascii => Seq::empty(),
        Storage::BinaryLe => one_le() + seq![0x0au8],
        Storage::BinaryBe => one_be() + seq![0x0au8],
    }
}

/// A line that holds `word` and nothing else.
pub open spec fn tag_line_bytes(word: Seq<u8>) -> Seq<u8> {
    word + seq![0x0au8]
}

/// The line that names the dialect. The width of `size_t` is written as 8.
pub open spec fn dialect_line(header: MshHeader) -> Seq<u8> {
    version_word(header.version) + seq![
        0x20u8,
        storage_flag(header.storage),
        0x20u8,
        0x38u8,
        0x0au8,
    ]
}

/// The format block of `header`.
pub open spec fn header_bytes(header: MshHeader) -> Seq<u8> {
    tag_line_bytes("$MeshFormat".spec_bytes()) + dialect_line(header) + marker_line(
        header.storage,
    ) + tag_line_bytes("$EndMeshFormat".spec_bytes())
}

/// The record of one node: as text a line of four fields parted by single spaces, else the
/// tag and the three coordinates in eight raw bytes each.
pub open spec fn node_bytes(node: Node, storage: Storage) -> Seq<u8> {
    if storage == Storage::Ascii {
        decimal(node.tag as nat) + seq![0x20u8] + double_text(node.x) + seq![0x20u8] + double_text(
            node.y,
        ) + seq![0x20u8] + double_text(node.z) + seq![0x0au8]
    } else {
        raw_bytes(node.tag, storage) + raw_bytes(node.x, storage) + raw_bytes(node.y, storage)
            + raw_bytes(node.z, storage)
    }
}

/// The records of `nodes`, in order.
pub open spec fn node_records_bytes(nodes: Seq<Node>, storage: Storage) -> Seq<u8>
    decreases nodes.len(),
{
    if nodes.len() == 0 {
        Seq::empty()
    } else {
        node_records_bytes(nodes.drop_last(), storage) + node_bytes(nodes.last(), storage)
    }
}

/// The node section of `nodes`: the opening line, the count, the records, the closing line.
pub open spec fn node_section_bytes(nodes: Seq<Node>, storage: Storage) -> Seq<u8> {
    tag_line_bytes("$Nodes".spec_bytes()) + tag_line_bytes(decimal(nodes.len()))
        + node_records_bytes(nodes, storage) + tag_line_bytes("$EndNodes".spec_bytes())
}

/// The number that is written for a tag that may be missing: zero stands for none.
pub open spec fn raw_tag(tag: Option<Tag>) -> u64 {
    match tag {
        Some(t) => t,
        None => 0,
    }
}

/// The numbers `numbers` as fields, each behind one space.
pub open spec fn spaced_numbers(numbers: Seq<u64>) -> Seq<u8>
    decreases numbers.len(),
{
    if numbers.len() == 0 {
        Seq::empty()
    } else {
        spaced_numbers(numbers.drop_last()) + seq![0x20u8] + decimal(numbers.last() as nat)
    }
}

/// The record of one element: its tag, the label of its shape, the number two, the physical
/// group and the geometry, and the tags of its nodes, as a line of fields parted by single
/// spaces.
pub open spec fn element_bytes(elt: EltModel) -> Seq<u8> {
    decimal(elt.tag as nat) + seq![0x20u8] + elt.ty.label() + seq![0x20u8, 0x32u8]
        + spaced_numbers(seq![raw_tag(elt.physical_group), raw_tag(elt.geometry)])
        + spaced_numbers(elt.nodes) + seq![0x0au8]
}

/// The records of `elts`, in order.
pub open spec fn element_records_bytes(elts: Seq<EltModel>) -> Seq<u8>
    decreases elts.len(),
{
    if elts.len() == 0 {
        Seq::empty()
    } else {
        element_records_bytes(elts.drop_last()) + element_bytes(elts.last())
    }
}

/// The element section of `elts`: the opening line, the count, the records, the closing line.
pub open spec fn element_section_bytes(elts: Seq<EltModel>) -> Seq<u8> {
    tag_line_bytes("$Elements".spec_bytes()) + tag_line_bytes(decimal(elts.len()))
        + element_records_bytes(elts) + tag_line_bytes("$EndElements".spec_bytes())
}

/// The record of one physical group: its dimension, its tag and its name between double
/// quotes, as a line of fields parted by single spaces.
pub open spec fn group_bytes(group: GroupModel) -> Seq<u8> {
    seq![(0x30 + group.dim) as u8, 0x20u8] + decimal(group.tag as nat) + seq![0x20u8, 0x22u8]
        + encode_utf8(group.name) + seq![0x22u8, 0x0au8]
}

/// The records of `groups`, in order.
pub open spec fn group_records_bytes(groups: Seq<GroupModel>) -> Seq<u8>
    decreases groups.len(),
{
    if groups.len() == 0 {
        Seq::empty()
    } else {
        group_records_bytes(groups.drop_last()) + group_bytes(groups.last())
    }
}

/// The section of the physical groups `groups`: the opening line, the count, the records, the
/// closing line.
pub open spec fn group_section_bytes(groups: Seq<GroupModel>) -> Seq<u8> {
    tag_line_bytes("$PhysicalNames".spec_bytes()) + tag_line_bytes(decimal(groups.len()))
        + group_records_bytes(groups) + tag_line_bytes("$EndPhysicalNames".spec_bytes())
}

/// A text document of version 2.2 that holds all of `mesh`: the format block, the nodes, the
/// elements and the physical groups.
pub open spec fn msh2_text_bytes(mesh: MeshModel) -> Seq<u8> {
    msh2_bytes(mesh, Storage::Ascii) + element_section_bytes(mesh.elts) + group_section_bytes(
        mesh.physical_groups,
    )
}

/// A document of version 2.2 that holds the nodes of `mesh`.
pub open spec fn msh2_bytes(mesh: MeshModel, storage: Storage) -> Seq<u8> {
    header_bytes(MshHeader { version: Version::V22, storage }) + node_section_bytes(
        mesh.nodes,
        storage,
    )
}

/// The start of a document of version 4.1: its format block.
pub open spec fn msh4_bytes(storage: Storage) -> Seq<u8> {
    header_bytes(MshHeader { version: Version::V41, storage })
}

/// Appends the eight bytes of `x`, the lowest first.
pub fn push_le_bytes(sink: &mut Vec<u8>, x: u64)
    ensures
        final(sink)@ == old(sink)@ + le_bytes(x),
{
    let mut rest: u64 = x;
    let mut i: usize = 0;
    let ghost mut done: Seq<u8> = Seq::empty();
    assert(old(sink)@ + done =~= old(sink)@);
    while i < 8
        invariant
            i <= 8,
            sink@ == old(sink)@ + done,
            le_bytes(x) == done + low_bytes(rest as nat, (8 - i) as nat),
        decreases 8 - i,
    {
        let b: u8 = (rest % 256) as u8;
        sink.push(b);
        proof {
            let tail = low_bytes((rest / 256) as nat, (8 - i - 1) as nat);
            assert(done + (seq![b] + tail) =~= done.push(b) + tail);
            assert(sink@ =~= old(sink)@ + done.push(b));
            done = done.push(b);
        }
        rest = rest / 256;
        i += 1;
    }
    assert(done + Seq::<u8>::empty() =~= done);
}

/// Appends the eight bytes of `x` in the byte order of `storage`.
pub fn push_raw_bytes(sink: &mut Vec<u8>, x: u64, storage: Storage)
    ensures
        final(sink)@ == old(sink)@ + raw_bytes(x, storage),
{
    match storage {
        Storage::BinaryBe => {
            let mut low: Vec<u8> = Vec::new();
            push_le_bytes(&mut low, x);
            assert(low@ =~= le_bytes(x));
            proof {
                lemma_low_bytes_len(x as nat, 8);
            }
            let mut i: usize = 8;
            while i > 0
                invariant
                    i <= 8,
                    low@.len() == 8,
                    low@ == le_bytes(x),
                    sink@ == old(sink)@ + low@.reverse().subrange(0, 8 - i),
                decreases i,
            {
                i -= 1;
                sink.push(low[i]);
                assert(sink@ =~= old(sink)@ + low@.reverse().subrange(0, 8 - i));
            }
            assert(low@.reverse().subrange(0, 8) =~= low@.reverse());
        },
        _ => push_le_bytes(sink, x),
    }
}

/// As many bytes are given as were asked for.
pub proof fn lemma_low_bytes_len(x: nat, count: nat)
    ensures
        low_bytes(x, count).len() == count,
    decreases count,
{
    if count > 0 {
        lemma_low_bytes_len(x / 256, (count - 1) as nat);
    }
}

/// Appends a line that holds `word` and nothing else.
pub fn write_tag_line(sink: &mut Vec<u8>, word: &[u8])
    ensures
        final(sink)@ == old(sink)@ + tag_line_bytes(word@),
{
    append_bytes(sink, word);
    sink.push(0x0a);
    assert(sink@ =~= old(sink)@ + tag_line_bytes(word@));
}

/// Appends the line that names the dialect.
pub fn write_dialect_line(sink: &mut Vec<u8>, header: &MshHeader)
    ensures
        final(sink)@ == old(sink)@ + dialect_line(*header),
{
    match header.version {
        Version::V22 => append_bytes(sink, "2.2".as_bytes()),
        Version::V41 => append_bytes(sink, "4.1".as_bytes()),
    }
    sink.push(0x20);
    match header.storage {
        Storage::Ascii => sink.push(0x30),
        Storage::BinaryLe => sink.push(0x31),
        Storage::BinaryBe => sink.push(0x31),
    }
    sink.push(0x20);
    sink.push(0x38);
    sink.push(0x0a);
    assert(sink@ =~= old(sink)@ + dialect_line(*header));
}

/// Appends the line that shows the byte order, if the storage has one.
pub fn write_marker_line(sink: &mut Vec<u8>, storage: Storage)
    ensures
        final(sink)@ == old(sink)@ + marker_line(storage),
{
    match storage {
        Storage::Ascii => {},
        Storage::BinaryLe => {
            sink.push(1);
            sink.push(0);
            sink.push(0);
            sink.push(0);
            sink.push(0x0a);
        },
        Storage::BinaryBe => {
            sink.push(0);
            sink.push(0);
            sink.push(0);
            sink.push(1);
            sink.push(0x0a);
        },
    }
    assert(sink@ =~= old(sink)@ + marker_line(storage));
}

impl MshHeader {
    /// Appends the format block to `sink`.
    pub fn write(&self, sink: &mut Vec<u8>)
        ensures
            final(sink)@ == old(sink)@ + header_bytes(*self),
    {
        write_tag_line(sink, "$MeshFormat".as_bytes());
        write_dialect_line(sink, self);
        write_marker_line(sink, self.storage);
        write_tag_line(sink, "$EndMeshFormat".as_bytes());
        assert(sink@ =~= old(sink)@ + header_bytes(*self));
    }

    /// The format block.
    pub fn to_bytes(&self) -> (bytes: Vec<u8>)
        ensures
            bytes@ == header_bytes(*self),
    {
        let mut bytes: Vec<u8> = Vec::new();
        self.write(&mut bytes);
        assert(bytes@ =~= header_bytes(*self));
        bytes
    }
}

/// Appends the record of `node` to `sink`.
pub fn write_node(sink: &mut Vec<u8>, node: &Node, storage: Storage)
    ensures
        final(sink)@ == old(sink)@ + node_bytes(*node, storage),
{
    match storage {
        Storage::Ascii => {
            push_decimal(sink, node.tag);
            sink.push(0x20);
            let x = format_double(node.x);
            append_bytes(sink, x.as_slice());
            sink.push(0x20);
            let y = format_double(node.y);
            append_bytes(sink, y.as_slice());
            sink.push(0x20);
            let z = format_double(node.z);
            append_bytes(sink, z.as_slice());
            sink.push(0x0a);
            assert(sink@ =~= old(sink)@ + node_bytes(*node, storage));
        },
        _ => {
            push_raw_bytes(sink, node.tag, storage);
            push_raw_bytes(sink, node.x, storage);
            push_raw_bytes(sink, node.y, storage);
            push_raw_bytes(sink, node.z, storage);
            assert(sink@ =~= old(sink)@ + node_bytes(*node, storage));
        },
    }
}

/// Appends the records of `nodes` to `sink`.
pub fn write_node_records(sink: &mut Vec<u8>, nodes: &Vec<Node>, storage: Storage)
    ensures
        final(sink)@ == old(sink)@ + node_records_bytes(nodes@, storage),
{
    let mut i: usize = 0;
    assert(nodes@.subrange(0, 0) =~= Seq::<Node>::empty());
    assert(old(sink)@ + node_records_bytes(nodes@.subrange(0, 0), storage) =~= old(sink)@);
    while i < nodes.len()
        invariant
            i <= nodes@.len(),
            sink@ == old(sink)@ + node_records_bytes(nodes@.subrange(0, i as int), storage),
        decreases nodes@.len() - i,
    {
        write_node(sink, &nodes[i], storage);
        proof {
            let upto = nodes@.subrange(0, i + 1);
            assert(upto.drop_last() =~= nodes@.subrange(0, i as int));
            assert(upto.last() == nodes@[i as int]);
            assert(sink@ =~= old(sink)@ + node_records_bytes(upto, storage));
        }
        i += 1;
    }
    assert(nodes@.subrange(0, i as int) =~= nodes@);
}

/// Appends the node section of `nodes` to `sink`.
pub fn write_node_section(sink: &mut Vec<u8>, nodes: &Vec<Node>, storage: Storage)
    ensures
        final(sink)@ == old(sink)@ + node_section_bytes(nodes@, storage),
{
    write_tag_line(sink, "$Nodes".as_bytes());
    let mut count: Vec<u8> = Vec::new();
    push_decimal(&mut count, nodes.len() as u64);
    assert(count@ =~= decimal(nodes@.len()));
    write_tag_line(sink, count.as_slice());
    write_node_records(sink, nodes, storage);
    write_tag_line(sink, "$EndNodes".as_bytes());
    assert(sink@ =~= old(sink)@ + node_section_bytes(nodes@, storage));
}

/// Appends the numbers `numbers` as fields, each behind one space.
pub fn write_spaced_numbers(sink: &mut Vec<u8>, numbers: &Vec<u64>)
    ensures
        final(sink)@ == old(sink)@ + spaced_numbers(numbers@),
{
    let mut i: usize = 0;
    assert(numbers@.subrange(0, 0) =~= Seq::<u64>::empty());
    assert(old(sink)@ + spaced_numbers(numbers@.subrange(0, 0)) =~= old(sink)@);
    while i < numbers.len()
        invariant
            i <= numbers@.len(),
            sink@ == old(sink)@ + spaced_numbers(numbers@.subrange(0, i as int)),
        decreases numbers@.len() - i,
    {
        sink.push(0x20);
        push_decimal(sink, numbers[i]);
        proof {
            let upto = numbers@.subrange(0, i + 1);
            assert(upto.drop_last() =~= numbers@.subrange(0, i as int));
            assert(upto.last() == numbers@[i as int]);
            assert(sink@ =~= old(sink)@ + spaced_numbers(upto));
        }
        i += 1;
    }
    assert(numbers@.subrange(0, i as int) =~= numbers@);
}

/// Appends the label of `shape`.
pub fn write_label(sink: &mut Vec<u8>, shape: MeshShape)
    ensures
        final(sink)@ == old(sink)@ + shape.label(),
{
    match shape {
        MeshShape::Line => sink.push(0x31),
        MeshShape::Triangle => sink.push(0x32),
        MeshShape::Quad => sink.push(0x33),
        MeshShape::Tetrahedron => sink.push(0x34),
        MeshShape::Point => {
            sink.push(0x31);
            sink.push(0x35);
        },
    }
    assert(sink@ =~= old(sink)@ + shape.label());
}

/// Appends the record of `elt` to `sink`. A tag that is missing is written as zero.
pub fn write_element(sink: &mut Vec<u8>, elt: &MeshElt)
    ensures
        final(sink)@ == old(sink)@ + element_bytes(elt@),
{
    push_decimal(sink, elt.tag);
    sink.push(0x20);
    write_label(sink, elt.ty);
    sink.push(0x20);
    sink.push(0x32);
    let mut tags: Vec<u64> = Vec::new();
    tags.push(
        match elt.physical_group {
            Some(t) => t,
            None => 0,
        },
    );
    tags.push(
        match elt.geometry {
            Some(t) => t,
            None => 0,
        },
    );
    assert(tags@ =~= seq![raw_tag(elt.physical_group), raw_tag(elt.geometry)]);
    write_spaced_numbers(sink, &tags);
    write_spaced_numbers(sink, &elt.nodes);
    sink.push(0x0a);
    assert(sink@ =~= old(sink)@ + element_bytes(elt@));
}

/// Appends the records of `elts` to `sink`.
pub fn write_element_records(sink: &mut Vec<u8>, elts: &Vec<MeshElt>)
    ensures
        final(sink)@ == old(sink)@ + element_records_bytes(elts.deep_view()),
{
    let ghost all = elts.deep_view();
    let mut i: usize = 0;
    assert(all.subrange(0, 0) =~= Seq::<EltModel>::empty());
    assert(old(sink)@ + element_records_bytes(all.subrange(0, 0)) =~= old(sink)@);
    while i < elts.len()
        invariant
            i <= elts@.len(),
            all == elts.deep_view(),
            all.len() == elts@.len(),
            sink@ == old(sink)@ + element_records_bytes(all.subrange(0, i as int)),
        decreases elts@.len() - i,
    {
        write_element(sink, &elts[i]);
        proof {
            let upto = all.subrange(0, i + 1);
            assert(upto.drop_last() =~= all.subrange(0, i as int));
            assert(upto.last() == elts@[i as int]@);
            assert(sink@ =~= old(sink)@ + element_records_bytes(upto));
        }
        i += 1;
    }
    assert(all.subrange(0, i as int) =~= all);
}

/// Appends the element section of `elts` to `sink`.
pub fn write_element_section(sink: &mut Vec<u8>, elts: &Vec<MeshElt>)
    ensures
        final(sink)@ == old(sink)@ + element_section_bytes(elts.deep_view()),
{
    write_tag_line(sink, "$Elements".as_bytes());
    let mut count: Vec<u8> = Vec::new();
    push_decimal(&mut count, elts.len() as u64);
    assert(count@ =~= decimal(elts.deep_view().len()));
    write_tag_line(sink, count.as_slice());
    write_element_records(sink, elts);
    write_tag_line(sink, "$EndElements".as_bytes());
    assert(sink@ =~= old(sink)@ + element_section_bytes(elts.deep_view()));
}

/// Appends the record of `group` to `sink`.
pub fn write_group(sink: &mut Vec<u8>, group: &PhysicalGroup)
    ensures
        final(sink)@ == old(sink)@ + group_bytes(group@),
{
    sink.push(0x30 + group.dim.get());
    sink.push(0x20);
    push_decimal(sink, group.tag);
    sink.push(0x20);
    sink.push(0x22);
    append_bytes(sink, group.name.as_str().as_bytes());
    sink.push(0x22);
    sink.push(0x0a);
    assert(sink@ =~= old(sink)@ + group_bytes(group@));
}

/// Appends the records of `groups` to `sink`.
pub fn write_group_records(sink: &mut Vec<u8>, groups: &Vec<PhysicalGroup>)
    ensures
        final(sink)@ == old(sink)@ + group_records_bytes(groups.deep_view()),
{
    let ghost all = groups.deep_view();
    let mut i: usize = 0;
    assert(all.subrange(0, 0) =~= Seq::<GroupModel>::empty());
    assert(old(sink)@ + group_records_bytes(all.subrange(0, 0)) =~= old(sink)@);
    while i < groups.len()
        invariant
            i <= groups@.len(),
            all == groups.deep_view(),
            all.len() == groups@.len(),
            sink@ == old(sink)@ + group_records_bytes(all.subrange(0, i as int)),
        decreases groups@.len() - i,
    {
        write_group(sink, &groups[i]);
        proof {
            let upto = all.subrange(0, i + 1);
            assert(upto.drop_last() =~= all.subrange(0, i as int));
            assert(upto.last() == groups@[i as int]@);
            assert(sink@ =~= old(sink)@ + group_records_bytes(upto));
        }
        i += 1;
    }
    assert(all.subrange(0, i as int) =~= all);
}

/// Appends the section of the physical groups `groups` to `sink`.
pub fn write_group_section(sink: &mut Vec<u8>, groups: &Vec<PhysicalGroup>)
    ensures
        final(sink)@ == old(sink)@ + group_section_bytes(groups.deep_view()),
{
    write_tag_line(sink, "$PhysicalNames".as_bytes());
    let mut count: Vec<u8> = Vec::new();
    push_decimal(&mut count, groups.len() as u64);
    assert(count@ =~= decimal(groups.deep_view().len()));
    write_tag_line(sink, count.as_slice());
    write_group_records(sink, groups);
    write_tag_line(sink, "$EndPhysicalNames".as_bytes());
    assert(sink@ =~= old(sink)@ + group_section_bytes(groups.deep_view()));
}

impl Msh {
    /// Appends a text document of version 2.2 to `sink` that holds all of the mesh: the
    /// format block, the nodes, the elements and the physical groups.
    pub fn write_msh2_text(&self, sink: &mut Vec<u8>)
        ensures
            final(sink)@ == old(sink)@ + msh2_text_bytes(self@),
    {
        self.write_msh2(sink, Storage::Ascii);
        write_element_section(sink, &self.elts);
        write_group_section(sink, &self.physical_groups);
        assert(sink@ =~= old(sink)@ + msh2_text_bytes(self@));
    }

    /// Appends a document of version 2.2 to `sink`: the format block and the node section.
    pub fn write_msh2(&self, sink: &mut Vec<u8>, storage: Storage)
        ensures
            final(sink)@ == old(sink)@ + msh2_bytes(self@, storage),
    {
        let header = MshHeader { version: Version::V22, storage };
        header.write(sink);
        write_node_section(sink, &self.nodes, storage);
        assert(sink@ =~= old(sink)@ + msh2_bytes(self@, storage));
    }

    /// Appends the start of a document of version 4.1 to `sink`: the format block.
    pub fn write_msh4(&self, sink: &mut Vec<u8>, storage: Storage)
        ensures
            final(sink)@ == old(sink)@ + msh4_bytes(storage),
    {
        let header = MshHeader { version: Version::V41, storage };
        header.write(sink);
    }
}

} // verus!
