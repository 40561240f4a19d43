use msh_rw::writer::{push_le_bytes, push_raw_bytes};
use msh_rw::{MeshElt, MeshShape, Msh, MshHeader, Node, Storage, Version};

fn node(tag: u64, x: f64, y: f64, z: f64) -> Node {
    Node { tag, x: x.to_bits(), y: y.to_bits(), z: z.to_bits() }
}

#[test]
fn write_empty_msh2_ascii() {
    let mut buffer = Vec::new();
    let msh = Msh::new();
    msh.write_msh2(&mut buffer, Storage::Ascii);
    assert_eq!(
        String::from_utf8(buffer).unwrap(),
        "$MeshFormat\n2.2 0 8\n$EndMeshFormat\n$Nodes\n0\n$EndNodes\n"
    );
}

#[test]
fn write_empty_msh4_ascii() {
    let mut buffer = Vec::new();
    let msh = Msh::new();
    msh.write_msh4(&mut buffer, Storage::Ascii);
    assert_eq!(String::from_utf8(buffer).unwrap(), "$MeshFormat\n4.1 0 8\n$EndMeshFormat\n");
}

#[test]
fn basic_msh2_ascii() {
    let mut msh = Msh::new();
    msh.nodes = vec![node(1, 0.0, 0.0, 0.0), node(2, 1.0, 0.0, 0.0)];
    msh.elts = vec![MeshElt {
        tag: 1,
        ty: MeshShape::Line,
        nodes: vec![1, 2],
        physical_group: None,
        geometry: None,
    }];
    let mut buffer = Vec::new();
    msh.write_msh2(&mut buffer, Storage::Ascii);
    assert_eq!(
        String::from_utf8(buffer).unwrap(),
        "$MeshFormat\n2.2 0 8\n$EndMeshFormat\n$Nodes\n2\n1 0 0 0\n2 1 0 0\n$EndNodes\n"
    );
}

#[test]
fn fractions_are_written_in_decimal() {
    let mut msh = Msh::new();
    msh.nodes = vec![node(7, 0.5, -2.25, 1e21)];
    let mut buffer = Vec::new();
    msh.write_msh2(&mut buffer, Storage::Ascii);
    assert_eq!(
        String::from_utf8(buffer).unwrap(),
        "$MeshFormat\n2.2 0 8\n$EndMeshFormat\n$Nodes\n1\n7 0.5 -2.25 1000000000000000000000\n$EndNodes\n"
    );
}

#[test]
fn writing_appends_to_the_sink() {
    let mut buffer = vec![0x78u8];
    Msh::new().write_msh4(&mut buffer, Storage::Ascii);
    assert_eq!(buffer, b"x$MeshFormat\n4.1 0 8\n$EndMeshFormat\n".to_vec());
}

#[test]
fn header_of_each_storage() {
    let ascii = MshHeader { version: Version::V22, storage: Storage::Ascii };
    assert_eq!(ascii.to_bytes(), b"$MeshFormat\n2.2 0 8\n$EndMeshFormat\n".to_vec());
    let le = MshHeader { version: Version::V41, storage: Storage::BinaryLe };
    assert_eq!(le.to_bytes(), b"$MeshFormat\n4.1 1 8\n\x01\x00\x00\x00\n$EndMeshFormat\n".to_vec());
    let be = MshHeader { version: Version::V22, storage: Storage::BinaryBe };
    assert_eq!(be.to_bytes(), b"$MeshFormat\n2.2 1 8\n\x00\x00\x00\x01\n$EndMeshFormat\n".to_vec());
}

#[test]
fn raw_bytes_in_both_orders() {
    let mut le = Vec::new();
    push_le_bytes(&mut le, 0x0102030405060708);
    assert_eq!(le, vec![8, 7, 6, 5, 4, 3, 2, 1]);
    let mut be = Vec::new();
    push_raw_bytes(&mut be, 0x0102030405060708, Storage::BinaryBe);
    assert_eq!(be, vec![1, 2, 3, 4, 5, 6, 7, 8]);
    let mut same = Vec::new();
    push_raw_bytes(&mut same, 0x0102030405060708, Storage::BinaryLe);
    assert_eq!(same, le);
}

#[test]
fn binary_nodes_little_endian() {
    let mut msh = Msh::new();
    msh.nodes = vec![node(3, 1.0, 0.0, -2.0)];
    let mut buffer = Vec::new();
    msh.write_msh2(&mut buffer, Storage::BinaryLe);
    let mut expected = b"$MeshFormat\n2.2 1 8\n\x01\x00\x00\x00\n$EndMeshFormat\n$Nodes\n1\n".to_vec();
    expected.extend_from_slice(&3u64.to_le_bytes());
    expected.extend_from_slice(&1.0f64.to_le_bytes());
    expected.extend_from_slice(&0.0f64.to_le_bytes());
    expected.extend_from_slice(&(-2.0f64).to_le_bytes());
    expected.extend_from_slice(b"$EndNodes\n");
    assert_eq!(buffer, expected);
}

#[test]
fn binary_nodes_big_endian() {
    let mut msh = Msh::new();
    msh.nodes = vec![node(3, 1.0, 0.0, -2.0)];
    let mut buffer = Vec::new();
    msh.write_msh2(&mut buffer, Storage::BinaryBe);
    let mut expected = b"$MeshFormat\n2.2 1 8\n\x00\x00\x00\x01\n$EndMeshFormat\n$Nodes\n1\n".to_vec();
    expected.extend_from_slice(&3u64.to_be_bytes());
    expected.extend_from_slice(&1.0f64.to_be_bytes());
    expected.extend_from_slice(&0.0f64.to_be_bytes());
    expected.extend_from_slice(&(-2.0f64).to_be_bytes());
    expected.extend_from_slice(b"$EndNodes\n");
    assert_eq!(buffer, expected);
}

#[test]
fn writing_is_deterministic() {
    let mut msh = Msh::new();
    msh.nodes = vec![node(1, 0.1, 0.2, 0.3), node(2, 1e-7, 3.0, 4.5)];
    let mut first = Vec::new();
    let mut second = Vec::new();
    msh.write_msh2(&mut first, Storage::Ascii);
    msh.write_msh2(&mut second, Storage::Ascii);
    assert_eq!(first, second);
}

#[test]
fn elements_are_written_as_lines() {
    let elts = vec![
        MeshElt {
            tag: 1,
            ty: MeshShape::Point,
            nodes: vec![5],
            physical_group: None,
            geometry: None,
        },
        MeshElt {
            tag: 500,
            ty: MeshShape::Line,
            nodes: vec![30, 31],
            physical_group: Some(1),
            geometry: Some(2),
        },
        MeshElt {
            tag: 41,
            ty: MeshShape::Tetrahedron,
            nodes: vec![1, 2, 3, 4],
            physical_group: None,
            geometry: Some(1),
        },
    ];
    let mut sink = Vec::new();
    msh_rw::writer::write_element_section(&mut sink, &elts);
    assert_eq!(
        String::from_utf8(sink.clone()).unwrap(),
        "$Elements\n3\n1 15 2 0 0 5\n500 1 2 1 2 30 31\n41 4 2 0 1 1 2 3 4\n$EndElements\n"
    );
    let mut warnings = Vec::new();
    let (next, read) =
        msh_rw::parser::parse_elements_section_msh2(&sink, 0, &mut warnings).unwrap();
    assert_eq!(read, elts);
    assert_eq!(next, sink.len());
    assert!(warnings.is_empty());
}

#[test]
fn a_tag_of_zero_is_read_as_missing() {
    let elt = MeshElt {
        tag: 7,
        ty: MeshShape::Triangle,
        nodes: vec![1, 2, 3],
        physical_group: Some(0),
        geometry: Some(9),
    };
    let mut sink = Vec::new();
    msh_rw::writer::write_element(&mut sink, &elt);
    assert_eq!(sink, b"7 2 2 0 9 1 2 3\n".to_vec());
    let mut warnings = Vec::new();
    let (_, read) = msh_rw::parser::parse_element_msh2(&sink, 0, &mut warnings).unwrap();
    assert_eq!(read.physical_group, None);
    assert_eq!(read.geometry, Some(9));
}

#[test]
fn groups_are_written_as_lines() {
    let (_, cube) = msh_rw::parser::parse_physical_group_msh2(b"3 1 \"Water cube\"", 0).unwrap();
    let (_, cafe) =
        msh_rw::parser::parse_physical_group_msh2("0 12 \"caf\u{e9}\"".as_bytes(), 0).unwrap();
    let groups = vec![cube, cafe];
    let mut sink = Vec::new();
    msh_rw::writer::write_group_section(&mut sink, &groups);
    assert_eq!(
        String::from_utf8(sink.clone()).unwrap(),
        "$PhysicalNames\n2\n3 1 \"Water cube\"\n0 12 \"caf\u{e9}\"\n$EndPhysicalNames\n"
    );
    let mut warnings = Vec::new();
    let (next, read) =
        msh_rw::parser::parse_physical_groups_msh2(&sink, 0, &mut warnings).unwrap();
    assert_eq!(read, groups);
    assert_eq!(next, sink.len());
    assert!(warnings.is_empty());
}

#[test]
fn a_whole_mesh_is_written_and_read_back() {
    let mut msh = Msh::new();
    msh.nodes = vec![node(1, 0.0, 0.25, -1e-3), node(2, 1.0, 2.0, 3.0), node(9, 7.5, 0.0, 0.0)];
    msh.elts = vec![
        MeshElt {
            tag: 1,
            ty: MeshShape::Line,
            nodes: vec![1, 2],
            physical_group: Some(4),
            geometry: None,
        },
        MeshElt {
            tag: 2,
            ty: MeshShape::Quad,
            nodes: vec![1, 2, 9, 1],
            physical_group: None,
            geometry: Some(8),
        },
    ];
    let (_, skin) = msh_rw::parser::parse_physical_group_msh2(b"2 4 \"skin\"", 0).unwrap();
    msh.physical_groups = vec![skin];
    let mut sink = Vec::new();
    msh.write_msh2_text(&mut sink);
    assert_eq!(
        String::from_utf8(sink.clone()).unwrap(),
        "$MeshFormat\n2.2 0 8\n$EndMeshFormat\n$Nodes\n3\n1 0 0.25 -0.001\n2 1 2 3\n9 7.5 0 0\n$EndNodes\n$Elements\n2\n1 1 2 4 0 1 2\n2 3 2 0 8 1 2 9 1\n$EndElements\n$PhysicalNames\n1\n2 4 \"skin\"\n$EndPhysicalNames\n"
    );
    let mut warnings = Vec::new();
    assert_eq!(msh_rw::parser::parse_msh_file(&sink, &mut warnings), Ok(vec![msh.clone()]));
    assert!(warnings.is_empty());
    let mut twice = sink.clone();
    twice.extend_from_slice(&sink);
    assert_eq!(
        msh_rw::parser::parse_msh_file(&twice, &mut warnings),
        Ok(vec![msh.clone(), msh])
    );
}

#[test]
fn numbers_behind_spaces() {
    let mut sink = Vec::new();
    msh_rw::writer::write_spaced_numbers(&mut sink, &vec![0, 15, 300]);
    assert_eq!(sink, b" 0 15 300".to_vec());
    let mut label = Vec::new();
    msh_rw::writer::write_label(&mut label, MeshShape::Point);
    msh_rw::writer::write_label(&mut label, MeshShape::Quad);
    assert_eq!(label, b"153".to_vec());
}
