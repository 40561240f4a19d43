//! Reader and writer for the MSH mesh exchange format.
//!
//! A mesh document is a `$MeshFormat` block followed by named sections. The [`parser`] module
//! decodes the text form of format version 2.2 from bytes; [`writer`] encodes a mesh again.
//! Coordinates are carried as the bit patterns of IEEE-754 doubles, so that every value of the
//! library is made of integers, bytes and text.
//!
//! The grammar is laid out in [`lexical`], [`decimal`], [`header`], [`records`] and
//! [`sections`]. [`roundtrip`] proves that what is written is read back, and [`splice`] that a
//! document written twice in a row is read as two.
use vstd::prelude::*;
use vstd::string::StringSliceAdditionalSpecFns;

pub mod decimal;
pub mod float;
pub mod header;
pub mod lexical;
pub mod mesh;
pub mod parser;
pub mod records;
pub mod roundtrip;
pub mod sections;
pub mod splice;
pub mod words;
pub mod writer;

verus! {

/// A 64-bit identifier of a node, an element, a physical group or a geometric entity.
pub type Tag = u64;

/// A topological dimension: 0 for a point, 1 for a curve, 2 for a surface, 3 for a volume.
#[derive(Debug, Copy, Clone, PartialEq, Eq)]
pub struct Dim {
    dim: u8,
}

impl Dim {
    #[verifier::type_invariant]
    spec fn in_range(self) -> bool {
        self.dim <= 3
    }

    /// The dimension as a number.
    pub closed spec fn value(self) -> u8 {
        self.dim
    }

    /// The dimension `d`, where there is one.
    pub fn new(d: u8) -> (r: Option<Dim>)
        ensures
            d <= 3 ==> r is Some && r->0.value() == d,
            d > 3 ==> r is None,
    {
        if d <= 3 {
            Some(Dim { dim: d })
        } else {
            None
        }
    }

    /// The dimension `dim`, for a caller that has checked the range already.
    pub fn from_u8_unchecked(dim: u8) -> (r: Dim)
        requires
            dim <= 3,
        ensures
            r.value() == dim,
    {
        Dim { dim }
    }

    /// The dimension as a number, which is at most 3.
    pub fn get(&self) -> (d: u8)
        ensures
            d == self.value(),
            d <= 3,
    {
        proof {
            use_type_invariant(self);
        }
        self.dim
    }
}

impl DeepView for Dim {
    type V = u8;

    open spec fn deep_view(&self) -> u8 {
        self.value()
    }
}

/// A mesh node: its tag and the bit patterns of its three coordinates.
#[derive(Debug, Copy, Clone, PartialEq, Eq)]
pub struct Node {
    pub tag: Tag,
    /// Bit pattern of the IEEE-754 double that is the x coordinate.
    pub x: u64,
    /// Bit pattern of the IEEE-754 double that is the y coordinate.
    pub y: u64,
    /// Bit pattern of the IEEE-754 double that is the z coordinate.
    pub z: u64,
}

impl DeepView for Node {
    type V = Node;

    open spec fn deep_view(&self) -> Node {
        *self
    }
}

/// The shapes of element that the format's type labels name.
#[derive(Debug, Copy, Clone, PartialEq, Eq)]
pub enum MeshShape {
    Point,
    Line,
    Triangle,
    Quad,
    Tetrahedron,
}

impl DeepView for MeshShape {
    type V = MeshShape;

    open spec fn deep_view(&self) -> MeshShape {
        *self
    }
}

impl MeshShape {
    /// How many nodes an element of this shape joins.
    pub open spec fn arity(self) -> nat {
        match self {
            MeshShape::Point => 1,
            MeshShape::Line => 2,
            MeshShape::Triangle => 3,
            MeshShape::Quad => 4,
            MeshShape::Tetrahedron => 4,
        }
    }

    /// The decimal type label that the format gives this shape.
    pub open spec fn label(self) -> Seq<u8> {
        match self {
            MeshShape::Line => seq![0x31u8],
            MeshShape::Triangle => seq![0x32u8],
            MeshShape::Quad => seq![0x33u8],
            MeshShape::Tetrahedron => seq![0x34u8],
            MeshShape::Point => seq![0x31u8, 0x35u8],
        }
    }

    /// The shape that the type label `label` names: the table is closed, and a label is matched
    /// as it is written, so that `01` names nothing.
    pub open spec fn of_label(label: Seq<u8>) -> Option<MeshShape> {
        if label == MeshShape::Line.label() {
            Some(MeshShape::Line)
        } else if label == MeshShape::Triangle.label() {
            Some(MeshShape::Triangle)
        } else if label == MeshShape::Quad.label() {
            Some(MeshShape::Quad)
        } else if label == MeshShape::Tetrahedron.label() {
            Some(MeshShape::Tetrahedron)
        } else if label == MeshShape::Point.label() {
            Some(MeshShape::Point)
        } else {
            None
        }
    }

    /// The shape named by the bytes of a type label.
    pub fn from_label_bytes(label: &[u8]) -> (r: Option<MeshShape>)
        ensures
            r == MeshShape::of_label(label@),
    {
        if label.len() == 1 {
            let b: u8 = label[0];
            assert(label@ =~= seq![b]);
            if b == 0x31 {
                Some(MeshShape::Line)
            } else if b == 0x32 {
                Some(MeshShape::Triangle)
            } else if b == 0x33 {
                Some(MeshShape::Quad)
            } else if b == 0x34 {
                Some(MeshShape::Tetrahedron)
            } else {
                assert(seq![b][0] == b);
                None
            }
        } else if label.len() == 2 {
            let b0: u8 = label[0];
            let b1: u8 = label[1];
            assert(label@ =~= seq![b0, b1]);
            if b0 == 0x31 && b1 == 0x35 {
                Some(MeshShape::Point)
            } else {
                assert(seq![b0, b1][0] == b0 && seq![b0, b1][1] == b1);
                None
            }
        } else {
            None
        }
    }

    /// The shape named by a type label.
    pub fn from_gmsh_label(label: &str) -> (r: Option<MeshShape>)
        ensures
            r == MeshShape::of_label(label.spec_bytes()),
    {
        MeshShape::from_label_bytes(label.as_bytes())
    }

    /// How many nodes an element of this shape joins.
    pub fn num_nodes(self) -> (n: u8)
        ensures
            n == self.arity(),
    {
        match self {
            MeshShape::Point => 1,
            MeshShape::Line => 2,
            MeshShape::Triangle => 3,
            MeshShape::Quad => 4,
            MeshShape::Tetrahedron => 4,
        }
    }
}

/// A mesh element: a shape laid over nodes, with the groups it belongs to.
#[derive(Debug, Clone, PartialEq, Eq)]
pub struct MeshElt {
    pub tag: Tag,
    pub ty: MeshShape,
    /// The tags of the element's nodes, as many as the shape joins.
    pub nodes: Vec<Tag>,
    /// The element's physical group.
    pub physical_group: Option<Tag>,
    /// The geometry this element comes from.
    pub geometry: Option<Tag>,
}

/// What a [`MeshElt`] holds, as mathematical values.
pub struct EltModel {
    pub tag: Tag,
    pub ty: MeshShape,
    pub nodes: Seq<Tag>,
    pub physical_group: Option<Tag>,
    pub geometry: Option<Tag>,
}

impl EltModel {
    /// The element has as many nodes as its shape joins.
    pub open spec fn wf(self) -> bool {
        self.nodes.len() == self.ty.arity()
    }
}

impl View for MeshElt {
    type V = EltModel;

    open spec fn view(&self) -> EltModel {
        EltModel {
            tag: self.tag,
            ty: self.ty,
            nodes: self.nodes@,
            physical_group: self.physical_group,
            geometry: self.geometry,
        }
    }
}

impl DeepView for MeshElt {
    type V = EltModel;

    open spec fn deep_view(&self) -> EltModel {
        self@
    }
}

/// A named group of entities of one dimension.
#[derive(Debug, Clone, PartialEq, Eq)]
pub struct PhysicalGroup {
    pub dim: Dim,
    pub tag: Tag,
    pub name: String,
}

/// What a [`PhysicalGroup`] holds, as mathematical values.
pub struct GroupModel {
    pub dim: u8,
    pub tag: Tag,
    pub name: Seq<char>,
}

impl View for PhysicalGroup {
    type V = GroupModel;

    open spec fn view(&self) -> GroupModel {
        GroupModel { dim: self.dim.value(), tag: self.tag, name: self.name@ }
    }
}

impl DeepView for PhysicalGroup {
    type V = GroupModel;

    open spec fn deep_view(&self) -> GroupModel {
        self@
    }
}

/// A mesh: nodes, elements and physical groups, each in file order.
#[derive(Debug, Clone, PartialEq, Eq)]
pub struct Msh {
    pub nodes: Vec<Node>,
    pub elts: Vec<MeshElt>,
    pub physical_groups: Vec<PhysicalGroup>,
}

/// What a [`Msh`] holds, as mathematical values.
pub struct MeshModel {
    pub nodes: Seq<Node>,
    pub elts: Seq<EltModel>,
    pub physical_groups: Seq<GroupModel>,
}

impl MeshModel {
    /// The mesh without nodes, elements or groups.
    pub open spec fn empty() -> MeshModel {
        MeshModel { nodes: Seq::empty(), elts: Seq::empty(), physical_groups: Seq::empty() }
    }
}

impl View for Msh {
    type V = MeshModel;

    open spec fn view(&self) -> MeshModel {
        MeshModel {
            nodes: self.nodes@,
            elts: self.elts.deep_view(),
            physical_groups: self.physical_groups.deep_view(),
        }
    }
}

impl DeepView for Msh {
    type V = MeshModel;

    open spec fn deep_view(&self) -> MeshModel {
        self@
    }
}

impl Msh {
    /// A mesh with nothing in it.
    pub fn new() -> (m: Msh)
        ensures
            m@ == MeshModel::empty(),
    {
        let m = Msh { nodes: Vec::new(), elts: Vec::new(), physical_groups: Vec::new() };
        assert(m@.elts =~= Seq::empty());
        assert(m@.physical_groups =~= Seq::empty());
        m
    }
}

/// Something that can be put into a mesh as one of its sections.
pub trait MshSection: Sized {
    /// The mesh `mesh` with the section in it.
    spec fn added_to(self, mesh: MeshModel) -> MeshModel;

    /// Puts the section into `mesh`.
    fn add_section(self, mesh: &mut Msh)
        ensures
            final(mesh)@ == self.added_to(old(mesh)@),
    ;
}

impl MshSection for Vec<Node> {
    /// The nodes take the place of those that the mesh had.
    open spec fn added_to(self, mesh: MeshModel) -> MeshModel {
        MeshModel { nodes: self@, ..mesh }
    }

    fn add_section(self, mesh: &mut Msh) {
        mesh.nodes = self;
    }
}

impl MshSection for Vec<MeshElt> {
    /// The elements take the place of those that the mesh had.
    open spec fn added_to(self, mesh: MeshModel) -> MeshModel {
        MeshModel { elts: self.deep_view(), ..mesh }
    }

    fn add_section(self, mesh: &mut Msh) {
        mesh.elts = self;
    }
}

impl MshSection for Vec<PhysicalGroup> {
    /// The groups take the place of those that the mesh had.
    open spec fn added_to(self, mesh: MeshModel) -> MeshModel {
        MeshModel { physical_groups: self.deep_view(), ..mesh }
    }

    fn add_section(self, mesh: &mut Msh) {
        mesh.physical_groups = self;
    }
}

impl Msh {
    /// Puts the section `s` into the mesh.
    pub fn section<S: MshSection>(&mut self, s: S)
        ensures
            final(self)@ == s.added_to(old(self)@),
    {
        s.add_section(self)
    }
}

impl Default for Msh {
    fn default() -> (m: Msh)
        ensures
            m@ == MeshModel::empty(),
    {
        Msh::new()
    }
}

/// The two dialects of the format that a header can name.
#[derive(Debug, Copy, Clone, PartialEq, Eq)]
pub enum Version {
    V22,
    V41,
}

/// How the body of a document is stored.
#[derive(Debug, Copy, Clone, PartialEq, Eq)]
pub enum Storage {
    Ascii,
    BinaryLe,
    BinaryBe,
}

impl DeepView for Version {
    type V = Version;

    open spec fn deep_view(&self) -> Version {
        *self
    }
}

/// The first block of a document. Only a `size_t` of 8 bytes is written and read.
#[derive(Debug, Copy, Clone, PartialEq, Eq)]
pub struct MshHeader {
    pub version: Version,
    pub storage: Storage,
}

} // verus!
