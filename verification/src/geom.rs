//! Points, colors, and the coordinate transform applied before drawing.

use vstd::prelude::*;

verus! {

/// A pixel-grid coordinate. May be negative or out of bounds; drawing
/// operations clip per pixel.
#[derive(Copy, Clone, PartialEq, Eq, Structural, Debug)]
pub struct Point {
    pub x: i32,
    pub y: i32,
}

/// An 8-bit RGB color.
#[derive(Copy, Clone, PartialEq, Eq, Structural, Debug)]
pub struct Color {
    pub r: u8,
    pub g: u8,
    pub b: u8,
}

/// Mathematical view of a point: its coordinates as unbounded integers.
pub open spec fn pt(p: Point) -> (int, int) {
    (p.x as int, p.y as int)
}

/// Mathematical view of a color: its three channels.
pub open spec fn rgb(c: Color) -> (u8, u8, u8) {
    (c.r, c.g, c.b)
}

/// Mathematical view of a vertex list.
pub open spec fn pts(s: Seq<Point>) -> Seq<(int, int)> {
    s.map_values(|p: Point| pt(p))
}

/// Largest coordinate magnitude the rasterizer accepts. All intermediate
/// products then stay below `1 << 62` and fit in the `i64` arithmetic the
/// drawing loops use.
pub const COORD_BOUND: i32 = 0x2000_0000;

/// A point whose coordinates the rasterizer's integer arithmetic can handle.
pub open spec fn in_coord_range(p: (int, int)) -> bool {
    &&& -(COORD_BOUND as int) <= p.0 <= COORD_BOUND as int
    &&& -(COORD_BOUND as int) <= p.1 <= COORD_BOUND as int
}

/// Mirrors a vertex list vertically: `y` becomes `height - y`. Used to bring
/// math-style (y-up) coordinate lists into the buffer's y-down convention
/// before drawing.
pub fn flip_y(points: &Vec<Point>, height: i32) -> (flipped: Vec<Point>)
    requires
        forall|i: int|
            0 <= i < points@.len() ==> i32::MIN <= height - #[trigger] points@[i].y <= i32::MAX,
    ensures
        flipped@.len() == points@.len(),
        forall|i: int|
            0 <= i < points@.len() ==> #[trigger] pts(flipped@)[i] == (points@[i].x as int,
            height - points@[i].y),
{
    let mut flipped: Vec<Point> = Vec::new();
    let mut i: usize = 0;
    while i < points.len()
        invariant
            i <= points@.len(),
            flipped@.len() == i,
            forall|i: int|
                0 <= i < points@.len() ==> i32::MIN <= height - #[trigger] points@[i].y
                    <= i32::MAX,
            forall|j: int|
                0 <= j < i ==> #[trigger] flipped@[j] == (Point {
                    x: points@[j].x,
                    y: (height - points@[j].y) as i32,
                }),
        decreases points@.len() - i,
    {
        let p = points[i];
        flipped.push(Point { x: p.x, y: height - p.y });
        i = i + 1;
    }
    flipped
}

} // verus!
