//! Lines of hydrothermal vents on a grid: expanding a horizontal, vertical or
//! diagonal line into the grid points it covers.

use vstd::prelude::*;

verus! {

#[derive(Debug, Copy, Clone, PartialEq, Eq, Structural)]
pub struct Point {
    pub x: u64,
    pub y: u64,
}

/// The distance between two numbers.
pub open spec fn spec_difference(a: u64, b: u64) -> u64 {
    if a > b {
        (a - b) as u64
    } else {
        (b - a) as u64
    }
}

pub fn difference(num1: u64, num2: u64) -> (r: u64)
    ensures
        r == spec_difference(num1, num2),
{
    if num1 > num2 {
        num1 - num2
    } else {
        num2 - num1
    }
}

impl Point {
    pub fn new(x: u64, y: u64) -> (r: Point)
        ensures
            r == (Point { x, y }),
    {
        Point { x, y }
    }

    /// The distance between the two coordinates.
    pub fn difference(&self) -> (r: u64)
        ensures
            r == spec_difference(self.x, self.y),
    {
        difference(self.x, self.y)
    }
}

#[derive(Debug, Copy, Clone, PartialEq, Eq, Structural)]
pub struct Line {
    pub start: Point,
    pub end: Point,
}

/// The step, -1, 0 or 1, that leads from `a` towards `b`.
pub open spec fn direction(a: u64, b: u64) -> int {
    if a < b {
        1
    } else if a > b {
        -1
    } else {
        0
    }
}

impl Line {
    pub fn new(start: Point, end: Point) -> (r: Line)
        ensures
            r == (Line { start, end }),
    {
        Line { start, end }
    }

    pub fn from_coords(start_x: u64, start_y: u64, end_x: u64, end_y: u64) -> (r: Line)
        ensures
            r == (Line { start: Point { x: start_x, y: start_y }, end: Point { x: end_x, y: end_y } }),
    {
        Line { start: Point::new(start_x, start_y), end: Point::new(end_x, end_y) }
    }

    /// Horizontal, vertical, or at forty-five degrees.
    pub open spec fn is_grid_line(self) -> bool {
        let dx = spec_difference(self.start.x, self.end.x);
        let dy = spec_difference(self.start.y, self.end.y);
        dx == 0 || dy == 0 || dx == dy
    }

    /// The number of steps from one end to the other.
    pub open spec fn spec_len(self) -> nat {
        let dx = spec_difference(self.start.x, self.end.x);
        let dy = spec_difference(self.start.y, self.end.y);
        if dx >= dy {
            dx as nat
        } else {
            dy as nat
        }
    }

    /// The point `k` steps from the start towards the end.
    pub open spec fn point_at(self, k: int) -> Point {
        Point {
            x: (self.start.x + k * direction(self.start.x, self.end.x)) as u64,
            y: (self.start.y + k * direction(self.start.y, self.end.y)) as u64,
        }
    }

    /// The points of the line, from start to end.
    pub open spec fn points(self) -> Seq<Point> {
        Seq::new(self.spec_len() + 1, |k: int| self.point_at(k))
    }
}

#[derive(Debug, Clone)]
pub struct ExpandedLine {
    pub points: Vec<Point>,
}

/// One coordinate moved `k` steps from `a` towards `b`.
fn advance(a: u64, b: u64, k: u64) -> (r: u64)
    requires
        k <= spec_difference(a, b) || a == b,
    ensures
        r == a + k * direction(a, b),
{
    if a < b {
        a + k
    } else if a > b {
        a - k
    } else {
        a
    }
}

impl ExpandedLine {
    pub fn new(points: Vec<Point>) -> (r: ExpandedLine)
        ensures
            r.points@ == points@,
    {
        ExpandedLine { points }
    }

    /// The points of a horizontal, vertical or diagonal line, from start to
    /// end (see `from_line_helpper`).
    pub fn from_line(line: &Line) -> (r: ExpandedLine)
        requires
            line.is_grid_line(),
            line.spec_len() < usize::MAX,
        ensures
            r.points@ == line.points(),
    {
        Self::new(Self::from_line_helpper(line))
    }

    /// The points of a horizontal, vertical or diagonal line, from start to end.
    ///
    /// Lines at any other angle are left out: no run of unit steps leads from
    /// one end to the other along them, so they cover no well-defined set of
    /// grid points, and vent data holds only the three kinds above.
    pub fn from_line_helpper(line: &Line) -> (r: Vec<Point>)
        requires
            line.is_grid_line(),
            line.spec_len() < usize::MAX,
        ensures
            r@ == line.points(),
    {
        let dx = difference(line.start.x, line.end.x);
        let dy = difference(line.start.y, line.end.y);
        let n = if dx >= dy {
            dx
        } else {
            dy
        };
        let mut points: Vec<Point> = Vec::new();
        let mut k: u64 = 0;
        loop
            invariant_except_break
                points@ == line.points().take(k as int),
            invariant
                k <= n,
                n == line.spec_len(),
                line.is_grid_line(),
            ensures
                k == n,
                points@ == line.points().take(n as int + 1),
            decreases n - k,
        {
            let p = Point::new(
                advance(line.start.x, line.end.x, k),
                advance(line.start.y, line.end.y, k),
            );
            points.push(p);
            proof {
                assert(points@ =~= line.points().take(k as int + 1));
            }
            if k == n {
                break;
            }
            k += 1;
        }
        proof {
            assert(line.points().take(n as int + 1) =~= line.points());
        }
        points
    }
}

/// A `size` by `size` grid of zeros.
pub fn generate_grid(size: usize) -> (r: Vec<Vec<u64>>)
    ensures
        r@.len() == size,
        forall|i: int| 0 <= i < size ==> (#[trigger] r@[i])@ == Seq::new(size as nat, |j: int| 0u64),
{
    let mut result: Vec<Vec<u64>> = Vec::new();
    let mut i: usize = 0;
    while i < size
        invariant
            i <= size,
            result@.len() == i,
            forall|k: int| 0 <= k < i ==> (#[trigger] result@[k])@ == Seq::new(size as nat, |j: int| 0u64),
        decreases size - i,
    {
        let mut row: Vec<u64> = Vec::new();
        let mut j: usize = 0;
        while j < size
            invariant
                j <= size,
                row@ == Seq::new(j as nat, |m: int| 0u64),
            decreases size - j,
        {
            row.push(0);
            proof {
                assert(row@ =~= Seq::new((j + 1) as nat, |m: int| 0u64));
            }
            j += 1;
        }
        result.push(row);
        i += 1;
    }
    result
}

} // verus!
