use msh_rw::lexical::{Fault, ParseError};
use msh_rw::parser::{
    parse_element_msh2, parse_msh2_ascii, parse_msh_file, parse_node_msh2,
    parse_node_section_msh2, parse_physical_group_msh2, parse_physical_groups_msh2,
    parse_unknown_section, peek_section, Msh2Section, MshError, MshVersion, Warning,
};
use msh_rw::{MeshElt, MeshShape, Msh, Node};

const BASIC: &str = "$MeshFormat\n2.2 0 8\n$EndMeshFormat\n$PhysicalNames\n2\n1 1 \"edge\"\n2 2 \"Water cube\"\n$EndPhysicalNames\n$Nodes\n3\n1 0 0 0\n2 1 0 0\n3 0 1.5 0\n$EndNodes\n$Elements\n2\n1 1 2 1 7 1 2\n2 2 2 2 0 1 2 3\n$EndElements\n";

fn node(tag: u64, x: f64, y: f64, z: f64) -> Node {
    Node { tag, x: x.to_bits(), y: y.to_bits(), z: z.to_bits() }
}

fn basic_mesh() -> Msh {
    let mut mesh = Msh::new();
    mesh.nodes = vec![node(1, 0.0, 0.0, 0.0), node(2, 1.0, 0.0, 0.0), node(3, 0.0, 1.5, 0.0)];
    mesh.elts = vec![
        MeshElt {
            tag: 1,
            ty: MeshShape::Line,
            nodes: vec![1, 2],
            physical_group: Some(1),
            geometry: Some(7),
        },
        MeshElt {
            tag: 2,
            ty: MeshShape::Triangle,
            nodes: vec![1, 2, 3],
            physical_group: Some(2),
            geometry: None,
        },
    ];
    let (_, edge) = parse_physical_group_msh2(b"1 1 \"edge\"", 0).unwrap();
    let (_, cube) = parse_physical_group_msh2(b"2 2 \"Water cube\"", 0).unwrap();
    mesh.physical_groups = vec![edge, cube];
    mesh
}

#[test]
fn peek_sections() {
    assert!(peek_section(b"$Nodes", 0).unwrap().1 == Msh2Section::Nodes);
    assert!(peek_section(b"$Elements", 0).unwrap().1 == Msh2Section::Elements);
}

#[test]
fn headers() {
    assert!(msh_rw::parser::nodes_header(b"$Nodes", 0).unwrap().1 == Msh2Section::Nodes);
    assert!(msh_rw::parser::elements_header(b"$Elements", 0).unwrap().1 == Msh2Section::Elements);
}

#[test]
fn trailing_spaces() {
    let inp = "101 0 1 100.0      \t\n";
    let (next, found) = parse_node_msh2(inp.as_bytes(), 0).unwrap();
    assert_eq!(found, node(101, 0.0, 1.0, 100.0));
    assert_eq!(next, inp.len());
}

#[test]
fn msh2_ascii() {
    let mut warnings = Vec::new();
    let (next, mesh) = parse_msh2_ascii(BASIC.as_bytes(), 0, &mut warnings).unwrap();
    assert_eq!(mesh, basic_mesh());
    assert_eq!(next, BASIC.len());
    assert!(warnings.is_empty());
}

#[test]
fn concatenated_mesh_files() {
    let msh = format!("{}{}", BASIC, BASIC);
    let mut warnings = Vec::new();
    let meshes = parse_msh_file(msh.as_bytes(), &mut warnings).unwrap();
    assert_eq!(meshes, vec![basic_mesh(), basic_mesh()]);
    let alone = parse_msh_file(BASIC.as_bytes(), &mut warnings).unwrap();
    assert_eq!(alone, vec![basic_mesh()]);
    assert!(warnings.is_empty());
}

#[test]
fn unknown_section() {
    let inp = "$Comments\nhi there\nfinished in 10.2seconds\n$EndComments\n";
    let (next, skipped) = parse_unknown_section(inp.as_bytes(), 0).unwrap();
    assert_eq!(skipped, ());
    assert_eq!(next, inp.len());
}

#[test]
fn section_failure() {
    let input = "$Elements\n\
             1 15 2 0 0 5\n\
             500 1 2 1 2 30 31\n\
             $EndElements";
    let mut warnings = Vec::new();
    let res = parse_msh2_ascii(input.as_bytes(), 0, &mut warnings);
    assert!(res.is_err());
    assert_eq!(
        res,
        Err(MshError::Header { source: ParseError { fault: Fault::Literal, at: 0 } })
    );
}

#[test]
fn node_elt() {
    let mut warnings = Vec::new();
    let (_, elt) = parse_element_msh2(b"1 15 2 0 0 5\n", 0, &mut warnings).unwrap();
    assert_eq!(
        elt,
        MeshElt {
            tag: 1,
            ty: MeshShape::Point,
            nodes: vec![5],
            physical_group: None,
            geometry: None
        }
    );
    assert!(warnings.is_empty());
}

#[test]
fn line_elt() {
    let mut warnings = Vec::new();
    let (_, elt) = parse_element_msh2(b"500 1 2 1 2 30 31\n", 0, &mut warnings).unwrap();
    assert_eq!(
        elt,
        MeshElt {
            tag: 500,
            ty: MeshShape::Line,
            nodes: vec![30, 31],
            physical_group: Some(1),
            geometry: Some(2)
        }
    );
}

#[test]
fn tri_elt() {
    let mut warnings = Vec::new();
    let (_, elt) = parse_element_msh2(b"10 2 2 5 1 1 2 3\n", 0, &mut warnings).unwrap();
    assert_eq!(
        elt,
        MeshElt {
            tag: 10,
            ty: MeshShape::Triangle,
            nodes: vec![1, 2, 3],
            physical_group: Some(5),
            geometry: Some(1)
        }
    );
}

#[test]
fn tetra_elt() {
    let mut warnings = Vec::new();
    let (_, elt) = parse_element_msh2(b"41 4 2 0 1 1 2 3 4\n", 0, &mut warnings).unwrap();
    assert_eq!(
        elt,
        MeshElt {
            tag: 41,
            ty: MeshShape::Tetrahedron,
            nodes: vec![1, 2, 3, 4],
            physical_group: None,
            geometry: Some(1)
        }
    );
}

#[test]
fn elt_extra_fields() {
    let mut warnings = Vec::new();
    let (_, elt) =
        parse_element_msh2(b"41 4 5 0 1 1 2 3 41 42 43 44\n", 0, &mut warnings).unwrap();
    assert_eq!(
        elt,
        MeshElt {
            tag: 41,
            ty: MeshShape::Tetrahedron,
            nodes: vec![41, 42, 43, 44],
            physical_group: None,
            geometry: Some(1)
        }
    );
    assert_eq!(warnings, vec![Warning::ExtraTags { element: 41, declared: 5 }]);
}

#[test]
fn node_msh2() {
    let i = "1201 0 0. 1.";
    let (next, found) = parse_node_msh2(i.as_bytes(), 0).unwrap();
    assert_eq!(found, node(1201, 0.0, 0.0, 1.0));
    assert_eq!(next, i.len());
}

#[test]
fn pgroup_msh2() {
    let i = r#"3 1 "Water cube""#;
    let (next, group) = parse_physical_group_msh2(i.as_bytes(), 0).unwrap();
    assert_eq!(group.dim.get(), 3);
    assert_eq!(group.tag, 1);
    assert_eq!(group.name, "Water cube");
    assert_eq!(next, i.len());
}

#[test]
fn pgroups_section() {
    let inp = r#"$PhysicalNames
4
0 1 "a point"
0 2 "hi"
3 3 "Water-cube"
2 4 "fuselage"
$EndPhysicalNames"#;
    let mut warnings = Vec::new();
    let (next, groups) = parse_physical_groups_msh2(inp.as_bytes(), 0, &mut warnings).unwrap();
    let found: Vec<(u8, u64, &str)> =
        groups.iter().map(|g| (g.dim.get(), g.tag, g.name.as_str())).collect();
    assert_eq!(
        found,
        vec![(0, 1, "a point"), (0, 2, "hi"), (3, 3, "Water-cube"), (2, 4, "fuselage")]
    );
    assert_eq!(next, inp.len());
    assert!(warnings.is_empty());
}

#[test]
fn bad_physical_group_dimension() {
    let res = parse_physical_group_msh2(r#"4 1 "Water cube"#.as_bytes(), 0);
    assert!(res.is_err());
    assert_eq!(res, Err(ParseError { fault: Fault::Dimension, at: 0 }));
}

#[test]
fn some_nodes() {
    let i = "$Nodes\n3\n1 0. 0. 1.\n2 1. 1 1\n100 1 1 1\n$EndNodes\n";
    let mut warnings = Vec::new();
    let (next, nodes) = parse_node_section_msh2(i.as_bytes(), 0, &mut warnings).unwrap();
    assert_eq!(
        nodes,
        vec![node(1, 0.0, 0.0, 1.0), node(2, 1.0, 1.0, 1.0), node(100, 1.0, 1.0, 1.0)]
    );
    assert_eq!(next, i.len());
    assert!(warnings.is_empty());
}

#[test]
fn nodes_len_mismatch() {
    let inp = "$Nodes\n0\n1 0. 0. 1.\n2 1. 1 1\n100 1 1 1\n$EndNodes\n";
    let mut warnings = Vec::new();
    let (_, nodes) = parse_node_section_msh2(inp.as_bytes(), 0, &mut warnings).unwrap();
    assert_eq!(
        nodes,
        vec![node(1, 0.0, 0.0, 1.0), node(2, 1.0, 1.0, 1.0), node(100, 1.0, 1.0, 1.0)]
    );
    assert_eq!(
        warnings,
        vec![Warning::CountMismatch { section: Msh2Section::Nodes, declared: 0, found: 3 }]
    );
}

#[test]
fn empty_nodes() {
    let inp = "$Nodes\n0\n$EndNodes\n";
    let mut warnings = Vec::new();
    let (next, nodes) = parse_node_section_msh2(inp.as_bytes(), 0, &mut warnings).unwrap();
    assert_eq!(nodes, vec![]);
    assert_eq!(next, inp.len());
    assert!(warnings.is_empty());
}

#[test]
fn msh_header_test() {
    let header = "$MeshFormat\n2.2 0 8\n$EndMeshFormat\n";
    match msh_rw::parser::msh_header(header.as_bytes(), 0) {
        Ok((_, MshVersion::AsciiV22)) => (),
        _else => panic!("bad mesh header"),
    };
    let header = "$MeshFormat\n2.2 1 8\n\u{1}\u{0}\u{0}\u{0}\n$EndMeshFormat\n";
    match msh_rw::parser::msh_header(header.as_bytes(), 0) {
        Ok((_, MshVersion::BinaryLeV22)) => (),
        _else => panic!("bad mesh header"),
    };
}

#[test]
fn msh2_ascii_header() {
    let header = "$MeshFormat\r\n2.2 0 8\r\n$EndMeshFormat\r\n";
    assert_eq!(
        msh_rw::parser::msh_header(header.as_bytes(), 0),
        Ok((header.len(), MshVersion::AsciiV22))
    );
}

#[test]
fn unix_line_endings() {
    let header = "$MeshFormat\n2.2 0 8\n$EndMeshFormat\n";
    assert_eq!(
        msh_rw::parser::msh_header(header.as_bytes(), 0),
        Ok((header.len(), MshVersion::AsciiV22))
    );
}

#[test]
fn msh2_binary_header() {
    let header = b"$MeshFormat\n2.2 1 8\n\x01\x00\x00\x00\n$EndMeshFormat\n";
    assert_eq!(
        msh_rw::parser::msh_header(header, 0),
        Ok((header.len(), MshVersion::BinaryLeV22))
    );
}

#[test]
fn bad_header() {
    let header = "$MeshFormat\n2.3 0 8\n$EndMeshFormat\n";
    let res = msh_rw::parser::msh_header(header.as_bytes(), 0);
    assert!(res.is_err());
    assert_eq!(res, Err(ParseError { fault: Fault::Version, at: 12 }));
}

#[test]
fn msh4_ascii_header() {
    let header = "$MeshFormat\n4.1 0 8\n$EndMeshFormat\n";
    assert_eq!(
        msh_rw::parser::msh_header(header.as_bytes(), 0),
        Ok((header.len(), MshVersion::AsciiV41))
    );
}

#[test]
fn msh4_binary_header() {
    let header = b"$MeshFormat\n4.1 1 8\n\x01\x00\x00\x00\n$EndMeshFormat\n";
    assert_eq!(
        msh_rw::parser::msh_header(header, 0),
        Ok((header.len(), MshVersion::BinaryLeV41))
    );
}
