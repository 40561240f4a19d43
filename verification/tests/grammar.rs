use msh_rw::decimal::{parse_u64, push_decimal};
use msh_rw::float::{parse_double, settle_double};
use msh_rw::lexical::{
    end_of_line, literal, sp, starts_with, tab, tag_line, whitespace, Fault, ParseError,
};
use msh_rw::parser::{
    add_section, format_footer, format_header, msh_header, parse_coordinate, parse_dimension,
    parse_element_msh2, parse_elements_section_msh2, parse_elt_info, parse_fields,
    parse_msh2_ascii, parse_msh_file, parse_name, parse_node_msh2, parse_node_section_msh2,
    parse_physical_group_msh2, parse_physical_groups_msh2, parse_single_msh,
    parse_unknown_section, peek_header, peek_section, EltInfo, Msh2Section, MshError,
    MshVersion, Warning,
};
use msh_rw::{Dim, MeshShape, Msh, Node};

fn fault<T: std::fmt::Debug>(r: Result<T, ParseError>) -> (Fault, usize) {
    let e = r.unwrap_err();
    (e.fault, e.at)
}

#[test]
fn empty_input_holds_no_document() {
    let mut warnings = Vec::new();
    assert_eq!(parse_msh_file(b"", &mut warnings), Ok(vec![]));
    assert!(warnings.is_empty());
}

#[test]
fn what_follows_the_last_document_is_left() {
    let mut warnings = Vec::new();
    let input = b"$MeshFormat\n2.2 0 8\n$EndMeshFormat\nnot a section\n";
    assert_eq!(parse_msh_file(input, &mut warnings), Ok(vec![Msh::new()]));
    assert_eq!(parse_msh_file(b"garbage", &mut warnings), Ok(vec![]));
}

#[test]
fn spaces_and_tabs_are_skipped() {
    assert_eq!(sp(b" \t x", 0), 3);
    assert_eq!(sp(b"x", 0), 0);
    assert_eq!(sp(b" \n", 0), 1);
    assert_eq!(sp(b"  ", 5), 5);
}

#[test]
fn a_tab_is_one_tab() {
    assert_eq!(tab(b"\t\t", 0), Ok(1));
    assert_eq!(tab(b" \t", 0), Err(ParseError { fault: Fault::Literal, at: 0 }));
    assert_eq!(tab(b"", 0), Err(ParseError { fault: Fault::Literal, at: 0 }));
}

#[test]
fn a_gap_is_not_empty() {
    assert_eq!(whitespace(b"  \tx", 0), Ok(3));
    assert_eq!(whitespace(b"x", 0), Err(ParseError { fault: Fault::Space, at: 0 }));
    assert_eq!(whitespace(b"\nx", 0), Err(ParseError { fault: Fault::Space, at: 0 }));
}

#[test]
fn line_ends() {
    assert_eq!(end_of_line(b"\nx", 0), Ok(1));
    assert_eq!(end_of_line(b"\r\nx", 0), Ok(2));
    assert_eq!(end_of_line(b" \t \nx", 0), Ok(4));
    assert_eq!(end_of_line(b"", 0), Ok(0));
    assert_eq!(end_of_line(b"  ", 0), Ok(2));
    assert_eq!(end_of_line(b" x\n", 0), Err(ParseError { fault: Fault::LineEnd, at: 1 }));
    assert_eq!(end_of_line(b"\rx", 0), Err(ParseError { fault: Fault::LineEnd, at: 0 }));
    assert_eq!(end_of_line(b"\r", 0), Err(ParseError { fault: Fault::LineEnd, at: 0 }));
}

#[test]
fn fixed_words() {
    assert_eq!(literal(b"ab$Nodes", 2, b"$Nodes"), Ok(8));
    assert_eq!(literal(b"$Node", 0, b"$Nodes"), Err(ParseError { fault: Fault::Literal, at: 0 }));
    assert_eq!(literal(b"$Nodes", 9, b"$Nodes"), Err(ParseError { fault: Fault::Literal, at: 9 }));
    assert!(starts_with(b"$Nodes\n", 0, b"$Nodes"));
    assert!(!starts_with(b"$Nodez\n", 0, b"$Nodes"));
    assert_eq!(tag_line(b"$Nodes  \r\n3", 0, b"$Nodes"), Ok(10));
    assert_eq!(
        tag_line(b"$NodesX\n", 0, b"$Nodes"),
        Err(ParseError { fault: Fault::LineEnd, at: 6 })
    );
}

#[test]
fn unsigned_numbers() {
    assert_eq!(parse_u64(b"0", 0), Ok((1, 0)));
    assert_eq!(parse_u64(b"007 ", 0), Ok((3, 7)));
    assert_eq!(parse_u64(b"x12345y", 1), Ok((6, 12345)));
    assert_eq!(parse_u64(b"18446744073709551615", 0), Ok((20, u64::MAX)));
    assert_eq!(fault(parse_u64(b"18446744073709551616", 0)), (Fault::Overflow, 0));
    assert_eq!(fault(parse_u64(b"99999999999999999999999", 0)), (Fault::Overflow, 0));
    assert_eq!(fault(parse_u64(b"-1", 0)), (Fault::Digit, 0));
    assert_eq!(fault(parse_u64(b"", 0)), (Fault::Digit, 0));
}

#[test]
fn decimal_digits_are_written() {
    for n in [0u64, 7, 10, 99, 100, 12345, 1 << 32, u64::MAX] {
        let mut sink = vec![0x23u8];
        push_decimal(&mut sink, n);
        assert_eq!(String::from_utf8(sink.clone()).unwrap(), format!("#{}", n));
        assert_eq!(parse_u64(&sink, 1), Ok((sink.len(), n)));
    }
}

#[test]
fn doubles_are_read_whole() {
    assert_eq!(parse_double(b"1.5"), Some(1.5f64.to_bits()));
    assert_eq!(parse_double(b"-2.5e3"), Some((-2500.0f64).to_bits()));
    assert_eq!(parse_double(b"1E-2"), Some(0.01f64.to_bits()));
    assert_eq!(parse_double(b"7"), Some(7.0f64.to_bits()));
    assert_eq!(parse_double(b"0."), Some(0.0f64.to_bits()));
    assert_eq!(parse_double(b"1.5x"), None);
    assert_eq!(parse_double(b"abc"), None);
    assert_eq!(parse_double(b""), None);
    assert_eq!(settle_double(Some((5, 0))), Some(5));
    assert_eq!(settle_double(Some((5, 1))), None);
    assert_eq!(settle_double(None), None);
}

#[test]
fn coordinates_are_fields() {
    assert_eq!(parse_coordinate(b"2.5 1", 0), Ok((3, 2.5f64.to_bits())));
    assert_eq!(parse_coordinate(b"1e3\n", 0), Ok((3, 1000.0f64.to_bits())));
    assert_eq!(fault(parse_coordinate(b"2.5x 1", 0)), (Fault::Number, 0));
    assert_eq!(fault(parse_coordinate(b" 2.5", 0)), (Fault::Number, 0));
    assert_eq!(fault(parse_coordinate(b"", 0)), (Fault::Number, 0));
}

#[test]
fn node_records_are_lines() {
    assert_eq!(
        parse_node_msh2(b"5 1.5\t-2 3e2\r\nrest", 0),
        Ok((
            14,
            Node { tag: 5, x: 1.5f64.to_bits(), y: (-2.0f64).to_bits(), z: 300.0f64.to_bits() }
        ))
    );
    assert_eq!(fault(parse_node_msh2(b"5 1 2\n", 0)), (Fault::Space, 5));
    assert_eq!(fault(parse_node_msh2(b"5 1 2 3 4\n", 0)), (Fault::LineEnd, 8));
    assert_eq!(fault(parse_node_msh2(b"5 1 2 x\n", 0)), (Fault::Number, 6));
    assert_eq!(fault(parse_node_msh2(b"5\n1 2 3\n", 0)), (Fault::Space, 1));
    assert_eq!(fault(parse_node_msh2(b"a 1 2 3\n", 0)), (Fault::Digit, 0));
}

#[test]
fn dimensions_are_digits_up_to_three() {
    for d in 0u8..4 {
        let (next, dim) = parse_dimension(&[0x30 + d], 0).unwrap();
        assert_eq!((next, dim.get()), (1, d));
    }
    assert_eq!(fault(parse_dimension(b"4", 0)), (Fault::Dimension, 0));
    assert_eq!(fault(parse_dimension(b"", 0)), (Fault::Dimension, 0));
    assert_eq!(Dim::new(3).map(|d| d.get()), Some(3));
    assert_eq!(Dim::new(0).map(|d| d.get()), Some(0));
    assert_eq!(Dim::new(4), None);
    assert_eq!(Dim::new(255), None);
    assert_eq!(Dim::from_u8_unchecked(2).get(), 2);
}

#[test]
fn shapes_and_labels() {
    assert_eq!(MeshShape::from_gmsh_label("1"), Some(MeshShape::Line));
    assert_eq!(MeshShape::from_gmsh_label("2"), Some(MeshShape::Triangle));
    assert_eq!(MeshShape::from_gmsh_label("3"), Some(MeshShape::Quad));
    assert_eq!(MeshShape::from_gmsh_label("4"), Some(MeshShape::Tetrahedron));
    assert_eq!(MeshShape::from_gmsh_label("15"), Some(MeshShape::Point));
    assert_eq!(MeshShape::from_gmsh_label("01"), None);
    assert_eq!(MeshShape::from_gmsh_label("5"), None);
    assert_eq!(MeshShape::from_gmsh_label(""), None);
    assert_eq!(MeshShape::from_label_bytes(b"15"), Some(MeshShape::Point));
    assert_eq!(MeshShape::from_label_bytes(b"151"), None);
    assert_eq!(MeshShape::Point.num_nodes(), 1);
    assert_eq!(MeshShape::Line.num_nodes(), 2);
    assert_eq!(MeshShape::Triangle.num_nodes(), 3);
    assert_eq!(MeshShape::Quad.num_nodes(), 4);
    assert_eq!(MeshShape::Tetrahedron.num_nodes(), 4);
}

#[test]
fn counted_fields() {
    assert_eq!(parse_fields(b" 1 22\t333", 0, 3), Ok((9, vec![1, 22, 333])));
    assert_eq!(parse_fields(b" 1 22", 0, 0), Ok((0, vec![])));
    assert_eq!(fault(parse_fields(b" 1 22", 0, 3)), (Fault::Space, 5));
    assert_eq!(fault(parse_fields(b"1 22", 0, 1)), (Fault::Space, 0));
}

#[test]
fn element_tags() {
    assert_eq!(
        parse_elt_info(b"2 7 9", 0),
        Ok((5, EltInfo { physical_group: 7, geometry: 9, num_tags: 2 }))
    );
    assert_eq!(
        parse_elt_info(b"1 7 9", 0),
        Ok((3, EltInfo { physical_group: 7, geometry: 0, num_tags: 1 }))
    );
    assert_eq!(
        parse_elt_info(b"0 7 9", 0),
        Ok((1, EltInfo { physical_group: 0, geometry: 0, num_tags: 0 }))
    );
    assert_eq!(
        parse_elt_info(b"4 7 9 1 2 5", 0),
        Ok((9, EltInfo { physical_group: 7, geometry: 9, num_tags: 4 }))
    );
}

#[test]
fn elements_with_fewer_than_two_tags() {
    let mut warnings = Vec::new();
    let (_, one) = parse_element_msh2(b"9 1 1 4 30 31\n", 0, &mut warnings).unwrap();
    assert_eq!((one.physical_group, one.geometry, one.nodes), (Some(4), None, vec![30, 31]));
    let (_, none) = parse_element_msh2(b"9 15 0 30\n", 0, &mut warnings).unwrap();
    assert_eq!((none.physical_group, none.geometry, none.nodes), (None, None, vec![30]));
    assert!(warnings.is_empty());
}

#[test]
fn element_faults() {
    let mut warnings = vec![Warning::ExtraTags { element: 1, declared: 3 }];
    let kept = warnings.clone();
    assert_eq!(
        fault(parse_element_msh2(b"1 7 2 0 0 5\n", 0, &mut warnings)),
        (Fault::ElementType, 2)
    );
    assert_eq!(
        fault(parse_element_msh2(b"1 01 2 0 0 5\n", 0, &mut warnings)),
        (Fault::ElementType, 2)
    );
    assert_eq!(fault(parse_element_msh2(b"1 2 2 0 0 5 6\n", 0, &mut warnings)), (Fault::Space, 13));
    assert_eq!(
        fault(parse_element_msh2(b"1 1 2 0 0 5 6 7\n", 0, &mut warnings)),
        (Fault::LineEnd, 14)
    );
    assert_eq!(
        fault(parse_element_msh2(b"1 1 3 0 0 5 6\n", 0, &mut warnings)),
        (Fault::Space, 13)
    );
    assert_eq!(fault(parse_element_msh2(b"1 x 2 0 0 5\n", 0, &mut warnings)), (Fault::Digit, 2));
    assert_eq!(warnings, kept);
}

#[test]
fn names() {
    assert_eq!(parse_name(b"\"a b-c\" x", 0), Ok((7, String::from("a b-c"))));
    assert_eq!(parse_name(b"\"\"", 0), Ok((2, String::new())));
    assert_eq!(parse_name("\"\u{e9}t\u{e9}\"".as_bytes(), 0), Ok((7, String::from("\u{e9}t\u{e9}"))));
    assert_eq!(fault(parse_name(b"abc\"", 0)), (Fault::Quote, 0));
    assert_eq!(fault(parse_name(b"\"abc", 0)), (Fault::Quote, 4));
    assert_eq!(fault(parse_name(b"\"ab\nc\"", 0)), (Fault::Quote, 3));
    assert_eq!(fault(parse_name(b"\"a\xffb\"", 0)), (Fault::Utf8, 1));
}

#[test]
fn group_faults() {
    assert_eq!(fault(parse_physical_group_msh2(b"3 x \"a\"\n", 0)), (Fault::Digit, 2));
    assert_eq!(fault(parse_physical_group_msh2(b"3 1 a\n", 0)), (Fault::Quote, 4));
    assert_eq!(fault(parse_physical_group_msh2(b"3 1 \"a\" b\n", 0)), (Fault::LineEnd, 8));
    assert_eq!(fault(parse_physical_group_msh2(b"31 \"a\"\n", 0)), (Fault::Space, 1));
}

#[test]
fn header_faults() {
    assert_eq!(fault(msh_header(b"$MeshFormat\n2.2 0 8\n", 0)), (Fault::Literal, 20));
    assert_eq!(fault(msh_header(b"$MeshFormat 2.2 0 8\n", 0)), (Fault::LineEnd, 12));
    assert_eq!(fault(msh_header(b"$MeshFormat\n3.0 0 8\n", 0)), (Fault::Version, 12));
    assert_eq!(fault(msh_header(b"$MeshFormat\n2.20 8\n", 0)), (Fault::Space, 15));
    assert_eq!(fault(msh_header(b"$MeshFormat\n2.2 2 8\n", 0)), (Fault::Storage, 16));
    assert_eq!(fault(msh_header(b"$MeshFormat\n2.2 0 9\n", 0)), (Fault::SizeWidth, 18));
    assert_eq!(fault(msh_header(b"$MeshFormat\n2.2 0 4\n", 0)), (Fault::NarrowSize, 18));
    assert_eq!(fault(msh_header(b"$MeshFormat\n2.2 0 8 x\n", 0)), (Fault::LineEnd, 20));
    assert_eq!(fault(msh_header(b"", 0)), (Fault::Literal, 0));
}

#[test]
fn byte_order_marker() {
    let big = b"$MeshFormat\n2.2 1 8\n\x00\x00\x00\x01\n$EndMeshFormat\n";
    assert_eq!(fault(msh_header(big, 0)), (Fault::BigEndian, 20));
    let corrupt = b"$MeshFormat\n2.2 1 8\n\x01\x00\x00\x01\n$EndMeshFormat\n";
    assert_eq!(fault(msh_header(corrupt, 0)), (Fault::Endianness, 20));
    let short = b"$MeshFormat\n2.2 1 8\n\x01\x00";
    assert_eq!(fault(msh_header(short, 0)), (Fault::Endianness, 20));
    let unmarked = b"$MeshFormat\n2.2 1 8\n$EndMeshFormat\n";
    assert_eq!(fault(msh_header(unmarked, 0)), (Fault::Endianness, 20));
}

#[test]
fn header_with_spaces_and_without_last_line_end() {
    let header = b"$MeshFormat \t\n4.1 \t 0\t8  \n$EndMeshFormat";
    assert_eq!(msh_header(header, 0), Ok((header.len(), MshVersion::AsciiV41)));
    assert_eq!(format_header(b"$MeshFormat\n", 0), Ok(12));
    assert_eq!(format_footer(b"$EndMeshFormat", 0), Ok(14));
    assert_eq!(peek_header(header, 0), Ok((0, MshVersion::AsciiV41)));
}

#[test]
fn headers_of_one_dialect() {
    let two = b"$MeshFormat\n2.2 0 8\n$EndMeshFormat\n";
    let four = b"$MeshFormat\n4.1 0 8\n$EndMeshFormat\n";
    assert_eq!(msh_rw::parser::msh2_ascii_header(two, 0), Ok((two.len(), MshVersion::AsciiV22)));
    assert_eq!(fault(msh_rw::parser::msh2_ascii_header(four, 0)), (Fault::Dialect, 0));
    assert_eq!(msh_rw::parser::msh4_ascii_header(four, 0), Ok((four.len(), MshVersion::AsciiV41)));
    assert_eq!(fault(msh_rw::parser::msh4_ascii_header(two, 0)), (Fault::Dialect, 0));
    assert_eq!(MshVersion::BinaryLeV41.version(), msh_rw::Version::V41);
    assert_eq!(MshVersion::BinaryLeV41.storage(), msh_rw::Storage::BinaryLe);
    assert_eq!(MshVersion::AsciiV22.version(), msh_rw::Version::V22);
    assert_eq!(MshVersion::AsciiV22.storage(), msh_rw::Storage::Ascii);
}

#[test]
fn other_dialects_are_not_decoded() {
    let mut warnings = Vec::new();
    let four = b"$MeshFormat\n4.1 0 8\n$EndMeshFormat\n$Nodes\n0\n$EndNodes\n";
    assert_eq!(
        parse_msh_file(four, &mut warnings),
        Err(MshError::Unsupported { dialect: MshVersion::AsciiV41 })
    );
    let binary = b"$MeshFormat\n2.2 1 8\n\x01\x00\x00\x00\n$EndMeshFormat\n";
    assert_eq!(
        parse_msh_file(binary, &mut warnings),
        Err(MshError::Unsupported { dialect: MshVersion::BinaryLeV22 })
    );
    assert_eq!(
        parse_single_msh(four, 0, MshVersion::BinaryLeV41, &mut warnings),
        Err(MshError::Unsupported { dialect: MshVersion::BinaryLeV41 })
    );
    assert_eq!(
        parse_msh2_ascii(four, 0, &mut warnings),
        Err(MshError::Header { source: ParseError { fault: Fault::Dialect, at: 0 } })
    );
}

#[test]
fn garbled_header_refuses_the_input() {
    let mut warnings = Vec::new();
    let input = b"$MeshFormat\n2.2 0 8\n$EndMeshFormat\n$MeshFormat\n2.2 0 7\n$EndMeshFormat\n";
    assert_eq!(
        parse_msh_file(input, &mut warnings),
        Err(MshError::Header { source: ParseError { fault: Fault::SizeWidth, at: 53 } })
    );
    let big = b"$MeshFormat\n2.2 1 8\n\x00\x00\x00\x01\n$EndMeshFormat\n";
    assert_eq!(
        parse_msh_file(big, &mut warnings),
        Err(MshError::Header { source: ParseError { fault: Fault::BigEndian, at: 20 } })
    );
}

#[test]
fn sections_in_any_order_and_unknown_ones() {
    let input = b"$MeshFormat\n2.2 0 8\n$EndMeshFormat\n$Elements\n1\n1 15 2 0 0 5\n$EndElements\n$Comments\n$Nodes\nnot read\n$EndComments\n$Nodes\n1\n5 1 2 3\n$EndNodes\n";
    let mut warnings = Vec::new();
    let meshes = parse_msh_file(input, &mut warnings).unwrap();
    assert_eq!(meshes.len(), 1);
    assert_eq!(
        meshes[0].nodes,
        vec![Node { tag: 5, x: 1.0f64.to_bits(), y: 2.0f64.to_bits(), z: 3.0f64.to_bits() }]
    );
    assert_eq!(meshes[0].elts.len(), 1);
    assert_eq!(meshes[0].elts[0].nodes, vec![5]);
    assert!(meshes[0].physical_groups.is_empty());
    assert!(warnings.is_empty());
}

#[test]
fn a_later_section_takes_the_place_of_an_earlier_one() {
    let input = b"$MeshFormat\n2.2 0 8\n$EndMeshFormat\n$Nodes\n1\n5 1 2 3\n$EndNodes\n$Nodes\n0\n$EndNodes\n";
    let mut warnings = Vec::new();
    let meshes = parse_msh_file(input, &mut warnings).unwrap();
    assert_eq!(meshes, vec![Msh::new()]);
}

#[test]
fn unknown_section_without_closing_line() {
    assert_eq!(fault(parse_unknown_section(b"$Comments\nhi\n", 0)), (Fault::Unclosed, 0));
    assert_eq!(
        fault(parse_unknown_section(b"$Comments\nhi\n$EndComment\n$EndNodes\n", 0)),
        (Fault::Unclosed, 0)
    );
    assert_eq!(
        fault(parse_unknown_section(b"$Comments\nhi\n$EndComments more\n", 0)),
        (Fault::Unclosed, 0)
    );
    assert_eq!(fault(parse_unknown_section(b"Comments\n", 0)), (Fault::Literal, 0));
    assert_eq!(fault(parse_unknown_section(b"$\n", 0)), (Fault::Literal, 1));
    assert_eq!(fault(parse_unknown_section(b"$A b\n$EndA\n", 0)), (Fault::LineEnd, 3));
    let mut warnings = Vec::new();
    let input = b"$MeshFormat\n2.2 0 8\n$EndMeshFormat\n$Comments\nhi\n";
    assert_eq!(
        parse_msh_file(input, &mut warnings),
        Err(MshError::Section { source: ParseError { fault: Fault::Unclosed, at: 35 } })
    );
}

#[test]
fn unknown_section_ends_at_its_first_closing_line() {
    let input = b"$A\n$EndAB\n$EndA\n$EndA\n";
    assert_eq!(parse_unknown_section(input, 0), Ok((16, ())));
}

#[test]
fn peeking_reads_nothing() {
    assert_eq!(peek_section(b"x$PhysicalNames\n", 1), Ok((1, Msh2Section::PhysicalGroups)));
    assert_eq!(peek_section(b"$Entities\n", 0), Ok((0, Msh2Section::Unknown)));
    assert_eq!(fault(peek_section(b"$MeshFormat\n", 0)), (Fault::Literal, 0));
    assert_eq!(fault(peek_section(b"Nodes\n", 0)), (Fault::Literal, 0));
    assert_eq!(fault(peek_section(b"", 0)), (Fault::Literal, 0));
    assert_eq!(
        msh_rw::parser::physical_groups_header(b"$PhysicalNames\n", 0),
        Ok((15, Msh2Section::PhysicalGroups))
    );
}

#[test]
fn sections_are_added_to_a_mesh() {
    let mut mesh = Msh::new();
    let mut warnings = Vec::new();
    let input = b"$Nodes\n1\n5 1 2 3\n$EndNodes\n";
    assert_eq!(
        add_section(&mut mesh, Msh2Section::Nodes, input, 0, &mut warnings),
        Ok((input.len(), ()))
    );
    assert_eq!(mesh.nodes.len(), 1);
    let before = mesh.clone();
    assert_eq!(
        fault(add_section(&mut mesh, Msh2Section::Elements, input, 0, &mut warnings)),
        (Fault::Literal, 0)
    );
    assert_eq!(mesh, before);
    assert_eq!(
        add_section(&mut mesh, Msh2Section::Unknown, input, 0, &mut warnings),
        Ok((input.len(), ()))
    );
    assert_eq!(mesh, before);
}

#[test]
fn warnings_are_collected_in_order() {
    let input = b"$MeshFormat\n2.2 0 8\n$EndMeshFormat\n$Elements\n5\n1 15 3 0 0 9 5\n2 15 2 0 0 5\n$EndElements\n$PhysicalNames\n0\n1 2 \"a\"\n$EndPhysicalNames\n";
    let mut warnings = vec![Warning::ExtraTags { element: 0, declared: 9 }];
    let meshes = parse_msh_file(input, &mut warnings).unwrap();
    assert_eq!(meshes.len(), 1);
    assert_eq!(
        warnings,
        vec![
            Warning::ExtraTags { element: 0, declared: 9 },
            Warning::ExtraTags { element: 1, declared: 3 },
            Warning::CountMismatch { section: Msh2Section::Elements, declared: 5, found: 2 },
            Warning::CountMismatch { section: Msh2Section::PhysicalGroups, declared: 0, found: 1 },
        ]
    );
}

#[test]
fn warnings_are_as_before_when_the_input_is_refused() {
    let input = b"$MeshFormat\n2.2 0 8\n$EndMeshFormat\n$Elements\n5\n1 15 3 0 0 9 5\n2 16 2 0 0 5\n$EndElements\n";
    let mut warnings = vec![Warning::ExtraTags { element: 0, declared: 9 }];
    assert_eq!(
        parse_msh_file(input, &mut warnings),
        Err(MshError::Section { source: ParseError { fault: Fault::ElementType, at: 64 } })
    );
    assert_eq!(warnings, vec![Warning::ExtraTags { element: 0, declared: 9 }]);
    let mut none = Vec::new();
    assert_eq!(
        fault(parse_elements_section_msh2(&input[35..], 0, &mut none)),
        (Fault::ElementType, 29)
    );
    assert!(none.is_empty());
}

#[test]
fn section_faults() {
    let mut warnings = Vec::new();
    assert_eq!(
        fault(parse_node_section_msh2(b"$Nodes\n1 0 0 0\n$EndNodes\n", 0, &mut warnings)),
        (Fault::LineEnd, 9)
    );
    assert_eq!(
        fault(parse_node_section_msh2(b"$Nodes\n1\n1 0 0 0\n", 0, &mut warnings)),
        (Fault::Digit, 17)
    );
    assert_eq!(
        fault(parse_physical_groups_msh2(b"$PhysicalNames\nx\n", 0, &mut warnings)),
        (Fault::Digit, 15)
    );
    assert!(warnings.is_empty());
}

#[test]
fn written_text_is_read_back() {
    let mut mesh = Msh::new();
    mesh.nodes = vec![
        Node { tag: 1, x: 0.1f64.to_bits(), y: (-2.5e-7f64).to_bits(), z: 1e300f64.to_bits() },
        Node { tag: u64::MAX, x: 0.0f64.to_bits(), y: (-0.0f64).to_bits(), z: 3.0f64.to_bits() },
    ];
    let mut sink = Vec::new();
    mesh.write_msh2(&mut sink, msh_rw::Storage::Ascii);
    let mut warnings = Vec::new();
    assert_eq!(parse_msh_file(&sink, &mut warnings), Ok(vec![mesh]));
    assert!(warnings.is_empty());
}
