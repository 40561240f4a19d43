use msh_rw::mesh::{Line, Point, Quad, Tri};
use msh_rw::parser::parse_physical_group_msh2;
use msh_rw::{MeshElt, MeshShape, Msh, Node};

fn node(tag: u64) -> Node {
    Node { tag, x: 1.0f64.to_bits(), y: 2.0f64.to_bits(), z: 3.0f64.to_bits() }
}

#[test]
fn a_new_mesh_is_empty() {
    let mesh = Msh::new();
    assert!(mesh.nodes.is_empty());
    assert!(mesh.elts.is_empty());
    assert!(mesh.physical_groups.is_empty());
    assert_eq!(Msh::default(), mesh);
}

#[test]
fn sections_take_the_place_of_what_the_mesh_had() {
    let mut mesh = Msh::new();
    mesh.section(vec![node(1), node(2)]);
    assert_eq!(mesh.nodes, vec![node(1), node(2)]);
    let elt = MeshElt {
        tag: 9,
        ty: MeshShape::Line,
        nodes: vec![1, 2],
        physical_group: Some(3),
        geometry: None,
    };
    mesh.section(vec![elt.clone()]);
    assert_eq!(mesh.elts, vec![elt]);
    assert_eq!(mesh.nodes, vec![node(1), node(2)]);
    let (_, group) = parse_physical_group_msh2(b"2 7 \"skin\"", 0).unwrap();
    mesh.section(vec![group.clone()]);
    assert_eq!(mesh.physical_groups, vec![group]);
    mesh.section(vec![node(5)]);
    assert_eq!(mesh.nodes, vec![node(5)]);
    assert_eq!(mesh.elts.len(), 1);
}

#[test]
fn shapes_hold_their_corners() {
    assert_eq!(Point::from_points(node(1)), Point::from_points(node(1)));
    assert_ne!(Point::from_points(node(1)), Point::from_points(node(2)));
    assert_ne!(Line::from_points(node(1), node(2)), Line::from_points(node(2), node(1)));
    assert_eq!(
        Tri::from_points(node(1), node(2), node(3)),
        Tri::from_points(node(1), node(2), node(3))
    );
    assert_ne!(
        Quad::from_points_unchecked(node(1), node(2), node(3), node(4)),
        Quad::from_points_unchecked(node(1), node(2), node(4), node(3))
    );
}
