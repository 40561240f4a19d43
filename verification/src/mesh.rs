//! Shapes that hold their corner nodes.
use crate::Node;
use vstd::prelude::*;

verus! {

/// A point: one node.
#[derive(Debug, Copy, Clone, PartialEq, Eq)]
pub struct Point {
    point: Node,
}

impl Point {
    /// The node of the point.
    pub closed spec fn corner(self) -> Node {
        self.point
    }

    /// The point at `p`.
    pub fn from_points(p: Node) -> (r: Point)
        ensures
            r.corner() == p,
    {
        Point { point: p }
    }
}

/// A line: two nodes, from the first to the second.
#[derive(Debug, Copy, Clone, PartialEq, Eq)]
pub struct Line {
    points: (Node, Node),
}

impl Line {
    /// The two ends of the line, in order.
    pub closed spec fn corners(self) -> Seq<Node> {
        seq![self.points.0, self.points.1]
    }

    /// The line from `a` to `b`.
    pub fn from_points(a: Node, b: Node) -> (r: Line)
        ensures
            r.corners() == seq![a, b],
    {
        Line { points: (a, b) }
    }
}

/// A triangle: three nodes, in order.
#[derive(Debug, Copy, Clone, PartialEq, Eq)]
pub struct Tri {
    points: (Node, Node, Node),
}

impl Tri {
    /// The three corners of the triangle, in order.
    pub closed spec fn corners(self) -> Seq<Node> {
        seq![self.points.0, self.points.1, self.points.2]
    }

    /// The triangle over `a`, `b` and `c`.
    pub fn from_points(a: Node, b: Node, c: Node) -> (r: Tri)
        ensures
            r.corners() == seq![a, b, c],
    {
        Tri { points: (a, b, c) }
    }
}

/// A quadrilateral: four nodes, in order.
#[derive(Debug, Copy, Clone, PartialEq, Eq)]
pub struct Quad {
    points: (Node, Node, Node, Node),
}

impl Quad {
    /// The four corners of the quadrilateral, in order.
    pub closed spec fn corners(self) -> Seq<Node> {
        seq![self.points.0, self.points.1, self.points.2, self.points.3]
    }

    /// The quadrilateral over `a`, `b`, `c` and `d`. Nothing is asked of where they lie.
    pub fn from_points_unchecked(a: Node, b: Node, c: Node, d: Node) -> (r: Quad)
        ensures
            r.corners() == seq![a, b, c, d],
    {
        Quad { points: (a, b, c, d) }
    }
}

} // verus!
