use vstd::prelude::*;
use vstd::string::StringExecFns;
use crate::board::Cell;

verus! {

/// A pixel point, with the corner direction it takes when padded: `h` is 1
/// for a top edge and -1 for a bottom one, `v` is 1 for a left edge and -1
/// for a right one, 0 for none.
#[derive(Debug, Clone, Copy)]
pub struct Point {
    pub x: i32,
    pub y: i32,
    pub v: i8,
    pub h: i8,
}

impl PartialEq for Point {
    fn eq(&self, other: &Point) -> (r: bool)
        ensures
            r == (self.x == other.x && self.y == other.y),
    {
        self.x == other.x && self.y == other.y
    }
}

impl Eq for Point {}

impl vstd::std_specs::cmp::PartialEqSpecImpl for Point {
    open spec fn obeys_eq_spec() -> bool {
        true
    }

    open spec fn eq_spec(&self, other: &Point) -> bool {
        self.x == other.x && self.y == other.y
    }
}

impl Point {
    pub fn new(x: u32, y: u32) -> (p: Point)
        requires
            x <= i32::MAX,
            y <= i32::MAX,
        ensures
            p.x == x,
            p.y == y,
            p.v == 0,
            p.h == 0,
    {
        Point { x: x as i32, y: y as i32, v: 0, h: 0 }
    }

    /// Moves the point by `padding` along its corner direction.
    pub fn apply_padding(&mut self, padding: i32)
        requires
            i32::MIN <= padding * old(self).h <= i32::MAX,
            i32::MIN <= padding * old(self).v <= i32::MAX,
            i32::MIN <= old(self).y + padding * old(self).h <= i32::MAX,
            i32::MIN <= old(self).x + padding * old(self).v <= i32::MAX,
        ensures
            final(self).y == old(self).y + padding * old(self).h,
            final(self).x == old(self).x + padding * old(self).v,
            final(self).h == old(self).h,
            final(self).v == old(self).v,
    {
        self.y = self.y + padding * (self.h as i32);
        self.x = self.x + padding * (self.v as i32);
    }
}

/// The name of a corner direction: "top" or "bootom", then "left" or
/// "right", joined by "-" when both are present.
pub open spec fn corner_name(h: i8, v: i8) -> Seq<char> {
    let vertical = if h == 1 { "top"@ } else if h == -1 { "bootom"@ } else { Seq::<char>::empty() };
    let horizontal = if v == 1 { "left"@ } else if v == -1 { "right"@ } else { Seq::<char>::empty() };
    if vertical.len() > 0 && horizontal.len() > 0 {
        vertical + "-"@ + horizontal
    } else {
        vertical + horizontal
    }
}

impl Point {
    /// The name of the point's corner direction, such as "top-left".
    pub fn str_corner(&self) -> (r: String)
        ensures
            r@ == corner_name(self.h, self.v),
    {
        proof {
            reveal_strlit("top");
            reveal_strlit("bootom");
            reveal_strlit("left");
            reveal_strlit("right");
            reveal_strlit("-");
            reveal_strlit("");
        }
        let mut c = String::from_str("");
        let mut vertical = false;
        if self.h == 1 {
            c.append("top");
            vertical = true;
        } else if self.h == -1 {
            c.append("bootom");
            vertical = true;
        }
        if self.v == 1 {
            if vertical {
                c.append("-");
            }
            c.append("left");
        } else if self.v == -1 {
            if vertical {
                c.append("-");
            }
            c.append("right");
        }
        proof {
            let vs = if self.h == 1 { "top"@ } else if self.h == -1 { "bootom"@ } else { Seq::<char>::empty() };
            assert(vertical == (vs.len() > 0));
        }
        c
    }
}

/// Which side of a cell a line runs along.
#[derive(Debug, Clone, Copy, PartialEq, Eq, Structural)]
pub enum LineLocation {
    Top,
    Bottom,
    Left,
    Right,
}

/// A grid line from `(x1, y1)` to `(x2, y2)` and the side it bounds.
#[derive(Debug, Clone, Copy)]
pub struct Line {
    pub x1: u32,
    pub y1: u32,
    pub x2: u32,
    pub y2: u32,
    pub loc: LineLocation,
}

impl PartialEq for Line {
    fn eq(&self, other: &Line) -> (r: bool)
        ensures
            r == (self.x1 == other.x1 && self.y1 == other.y1 && self.x2 == other.x2 && self.y2 == other.y2),
    {
        self.x1 == other.x1 && self.y1 == other.y1 && self.x2 == other.x2 && self.y2 == other.y2
    }
}

impl Eq for Line {}

impl vstd::std_specs::cmp::PartialEqSpecImpl for Line {
    open spec fn obeys_eq_spec() -> bool {
        true
    }

    open spec fn eq_spec(&self, other: &Line) -> bool {
        self.x1 == other.x1 && self.y1 == other.y1 && self.x2 == other.x2 && self.y2 == other.y2
    }
}

/// The endpoints that remain when two lines share an endpoint: the far end
/// of `a`, then the far end of `b`.
pub open spec fn connection(a: Line, b: Line) -> Option<(u32, u32, u32, u32)> {
    if a.x1 == b.x1 && a.y1 == b.y1 {
        Some((a.x2, a.y2, b.x2, b.y2))
    } else if a.x1 == b.x2 && a.y1 == b.y2 {
        Some((a.x2, a.y2, b.x1, b.y1))
    } else if a.x2 == b.x1 && a.y2 == b.y1 {
        Some((a.x1, a.y1, b.x2, b.y2))
    } else if a.x2 == b.x2 && a.y2 == b.y2 {
        Some((a.x1, a.y1, b.x1, b.y1))
    } else {
        None
    }
}

pub open spec fn min_u32(a: u32, b: u32) -> u32 {
    if a < b { a } else { b }
}

pub open spec fn max_u32(a: u32, b: u32) -> u32 {
    if a > b { a } else { b }
}

fn exec_min(a: u32, b: u32) -> (r: u32)
    ensures
        r == min_u32(a, b),
{
    if a < b { a } else { b }
}

fn exec_max(a: u32, b: u32) -> (r: u32)
    ensures
        r == max_u32(a, b),
{
    if a > b { a } else { b }
}

/// Two lines that share an endpoint and whose far ends lie on one horizontal
/// or vertical line merge into the line spanning the far ends.
pub open spec fn merged(a: Line, b: Line) -> Option<Line> {
    match connection(a, b) {
        Some((x1, y1, x2, y2)) => if x1 == x2 || y1 == y2 {
            Some(Line { x1: min_u32(x1, x2), y1: min_u32(y1, y2), x2: max_u32(x1, x2), y2: max_u32(y1, y2), loc: a.loc })
        } else {
            None
        },
        None => None,
    }
}

/// The line along side `st` (start) or the far side of cell index `c`,
/// spanning cells `a` to `b`; vertical when `v`.
pub open spec fn line_spec(size: int, a: int, b: int, c: int, v: bool, st: bool) -> Line {
    let s = (size * a) as u32;
    let e = (size * (b + 1)) as u32;
    let t = (if st { size * c } else { size * (c + 1) }) as u32;
    if v {
        Line { x1: t, x2: t, y1: s, y2: e, loc: if st { LineLocation::Top } else { LineLocation::Bottom } }
    } else {
        Line { x1: s, x2: e, y1: t, y2: t, loc: if st { LineLocation::Left } else { LineLocation::Right } }
    }
}

impl Line {
    pub fn new(size: usize, a: usize, b: usize, c: usize, v: bool, st: bool) -> (l: Line)
        requires
            b < usize::MAX,
            c < usize::MAX,
            size * a <= u32::MAX,
            size * (b + 1) <= u32::MAX,
            size * (c + 1) <= u32::MAX,
        ensures
            l == line_spec(size as int, a as int, b as int, c as int, v, st),
    {
        proof {
            assert(size * c <= size * (c + 1)) by (nonlinear_arith);
        }
        let s = (size * a) as u32;
        let e = (size * (b + 1)) as u32;
        let t = (if st { size * c } else { size * (c + 1) }) as u32;
        if v {
            return Line {
                x1: t,
                x2: t,
                y1: s,
                y2: e,
                loc: if st { LineLocation::Top } else { LineLocation::Bottom },
            };
        }
        Line { x1: s, x2: e, y1: t, y2: t, loc: if st { LineLocation::Left } else { LineLocation::Right } }
    }

    /// The four sides of a cell: top, bottom, left, right.
    pub fn from_cell(size: usize, c: &Cell) -> (lines: Vec<Line>)
        requires
            c.col < usize::MAX,
            c.row < usize::MAX,
            size * (c.col + 1) <= u32::MAX,
            size * (c.row + 1) <= u32::MAX,
        ensures
            lines@ == seq![
                line_spec(size as int, c.col as int, c.col as int, c.row as int, true, true),
                line_spec(size as int, c.col as int, c.col as int, c.row as int, true, false),
                line_spec(size as int, c.row as int, c.row as int, c.col as int, false, true),
                line_spec(size as int, c.row as int, c.row as int, c.col as int, false, false),
            ],
    {
        proof {
            assert(size * c.col <= size * (c.col + 1)) by (nonlinear_arith);
            assert(size * c.row <= size * (c.row + 1)) by (nonlinear_arith);
        }
        let mut lines = Vec::new();
        lines.push(Line::new(size, c.col, c.col, c.row, true, true));
        lines.push(Line::new(size, c.col, c.col, c.row, true, false));
        lines.push(Line::new(size, c.row, c.row, c.col, false, true));
        lines.push(Line::new(size, c.row, c.row, c.col, false, false));
        assert(lines@ =~= seq![
            line_spec(size as int, c.col as int, c.col as int, c.row as int, true, true),
            line_spec(size as int, c.col as int, c.col as int, c.row as int, true, false),
            line_spec(size as int, c.row as int, c.row as int, c.col as int, false, true),
            line_spec(size as int, c.row as int, c.row as int, c.col as int, false, false),
        ]);
        lines
    }

    /// The far ends of the two lines, if they share an endpoint.
    pub fn is_connected(&self, other: &Line) -> (r: Option<(u32, u32, u32, u32)>)
        ensures
            r == connection(*self, *other),
    {
        if self.x1 == other.x1 && self.y1 == other.y1 {
            Some((self.x2, self.y2, other.x2, other.y2))
        } else if self.x1 == other.x2 && self.y1 == other.y2 {
            Some((self.x2, self.y2, other.x1, other.y1))
        } else if self.x2 == other.x1 && self.y2 == other.y1 {
            Some((self.x1, self.y1, other.x2, other.y2))
        } else if self.x2 == other.x2 && self.y2 == other.y2 {
            Some((self.x1, self.y1, other.x1, other.y1))
        } else {
            None
        }
    }

    /// The line that joins the two, if they are connected and collinear.
    pub fn merge(&self, other: &Line) -> (r: Option<Line>)
        ensures
            r == merged(*self, *other),
    {
        if let Some((x1, y1, x2, y2)) = self.is_connected(other) {
            if x1 == x2 || y1 == y2 {
                return Some(Line {
                    x1: exec_min(x1, x2),
                    y1: exec_min(y1, y2),
                    x2: exec_max(x1, x2),
                    y2: exec_max(y1, y2),
                    loc: self.loc,
                });
            }
        }
        None
    }
}


/// The corner direction `(h, v)` that a line of each side gives its endpoints.
pub open spec fn hv_of(loc: LineLocation) -> (i8, i8) {
    match loc {
        LineLocation::Top => (1, 0),
        LineLocation::Bottom => (-1i8, 0i8),
        LineLocation::Left => (0, 1),
        LineLocation::Right => (0i8, -1i8),
    }
}

fn get_hv(line: &Line) -> (r: (i8, i8))
    ensures
        r == hv_of(line.loc),
{
    (
        match line.loc {
            LineLocation::Top => 1,
            LineLocation::Bottom => -1,
            _ => 0,
        },
        match line.loc {
            LineLocation::Left => 1,
            LineLocation::Right => -1i8,
            _ => 0,
        },
    )
}

/// A line as an outline edge: its two endpoints and the side it bounds,
/// `x` for a vertical edge and `y` for a horizontal one.
#[derive(Debug, Clone, Copy, PartialEq)]
pub struct Edge {
    pub start: Point,
    pub end: Point,
    pub v: i8,
    pub h: i8,
    pub x: u32,
    pub y: u32,
}

pub open spec fn edge_of(line: Line) -> Edge {
    Edge {
        start: Point { x: line.x1 as i32, y: line.y1 as i32, v: 0, h: 0 },
        end: Point { x: line.x2 as i32, y: line.y2 as i32, v: 0, h: 0 },
        h: hv_of(line.loc).0,
        v: hv_of(line.loc).1,
        x: match line.loc {
            LineLocation::Left | LineLocation::Right => line.x1,
            _ => 0,
        },
        y: match line.loc {
            LineLocation::Bottom | LineLocation::Top => line.y1,
            _ => 0,
        },
    }
}

pub open spec fn min_i32(a: i32, b: i32) -> i32 {
    if a < b { a } else { b }
}

pub open spec fn max_i32(a: i32, b: i32) -> i32 {
    if a > b { a } else { b }
}

/// Both endpoints moved onto one line: the inner one of a horizontal edge
/// (`x == 0`), the outer one of a vertical edge.
pub open spec fn aligned(e: Edge) -> Edge {
    if e.x == 0 {
        let y = if e.h == 1 { min_i32(e.start.y, e.end.y) } else { max_i32(e.start.y, e.end.y) };
        Edge { start: Point { y: y, ..e.start }, end: Point { y: y, ..e.end }, ..e }
    } else {
        let x = if e.v == -1 { min_i32(e.start.x, e.end.x) } else { max_i32(e.start.x, e.end.x) };
        Edge { start: Point { x: x, ..e.start }, end: Point { x: x, ..e.end }, ..e }
    }
}

impl Edge {
    pub fn from_line(line: &Line) -> (e: Edge)
        requires
            line.x1 <= i32::MAX,
            line.y1 <= i32::MAX,
            line.x2 <= i32::MAX,
            line.y2 <= i32::MAX,
        ensures
            e == edge_of(*line),
    {
        Edge {
            start: Point::new(line.x1, line.y1),
            end: Point::new(line.x2, line.y2),
            h: match line.loc {
                LineLocation::Top => 1,
                LineLocation::Bottom => -1,
                _ => 0,
            },
            v: match line.loc {
                LineLocation::Left => 1,
                LineLocation::Right => -1,
                _ => 0,
            },
            x: match line.loc {
                LineLocation::Left | LineLocation::Right => line.x1,
                _ => 0,
            },
            y: match line.loc {
                LineLocation::Bottom | LineLocation::Top => line.y1,
                _ => 0,
            },
        }
    }

    fn align(&mut self)
        ensures
            *final(self) == aligned(*old(self)),
    {
        if self.x == 0 {
            let y = if self.h == 1 { self.min(&self.start.y, &self.end.y) } else { self.max(&self.start.y, &self.end.y) };
            self.start.y = y;
            self.end.y = y;
        } else {
            let x = if self.v == -1 { self.min(&self.start.x, &self.end.x) } else { self.max(&self.start.x, &self.end.x) };
            self.start.x = x;
            self.end.x = x;
        }
    }

    fn min(&self, a: &i32, b: &i32) -> (r: i32)
        ensures
            r == min_i32(*a, *b),
    {
        if *a < *b { *a } else { *b }
    }

    fn max(&self, a: &i32, b: &i32) -> (r: i32)
        ensures
            r == max_i32(*a, *b),
    {
        if *a > *b { *a } else { *b }
    }
}

/// A corner direction updated by one line's: each nonzero part replaces the old one.
pub open spec fn apply_dir(prev: (i8, i8), hv: (i8, i8)) -> (i8, i8) {
    (if hv.0 != 0 { hv.0 } else { prev.0 }, if hv.1 != 0 { hv.1 } else { prev.1 })
}

/// The corner direction of pixel `(px, py)` after the first `n` lines have
/// marked their endpoints.
pub open spec fn corner_at(lines: Seq<Line>, n: int, px: int, py: int) -> (i8, i8)
    decreases n,
{
    if n <= 0 {
        (0, 0)
    } else {
        let prev = corner_at(lines, n - 1, px, py);
        let l = lines[n - 1];
        let a = if l.x1 == px && l.y1 == py { apply_dir(prev, hv_of(l.loc)) } else { prev };
        if l.x2 == px && l.y2 == py { apply_dir(a, hv_of(l.loc)) } else { a }
    }
}

/// A point that takes the corner direction of its pixel and is padded along it.
pub open spec fn padded(p: Point, hv: (i8, i8), padding: int) -> Point {
    Point { x: (p.x + padding * hv.1) as i32, y: (p.y + padding * hv.0) as i32, h: hv.0, v: hv.1 }
}

/// The edge that a line of `lines` becomes in their figure.
pub open spec fn figure_edge(lines: Seq<Line>, line: Line, padding: int) -> Edge {
    let e = edge_of(line);
    let n = lines.len() as int;
    aligned(Edge {
        start: padded(e.start, corner_at(lines, n, line.x1 as int, line.y1 as int), padding),
        end: padded(e.end, corner_at(lines, n, line.x2 as int, line.y2 as int), padding),
        ..e
    })
}

/// A cage outline as edges.
#[derive(Debug, PartialEq)]
pub struct Figure {
    pub edges: Vec<Edge>,
}

/// Lines whose endpoints lie within the board of `cell_size` pixels per cell.
pub open spec fn lines_within(lines: Seq<Line>, cell_size: int) -> bool {
    forall|i: int| 0 <= i < lines.len() ==> (#[trigger] lines[i]).x1 <= 9 * cell_size && lines[i].y1
        <= 9 * cell_size && lines[i].x2 <= 9 * cell_size && lines[i].y2 <= 9 * cell_size
}

impl Figure {
    /// Turns lines into edges: each endpoint takes the corner directions of
    /// all lines that end there, is padded by `padding` along them, and each
    /// edge is then aligned.
    pub fn from_lines(cell_size: usize, padding: i32, lines: &Vec<Line>) -> (f: Figure)
        requires
            9 * cell_size + 1 <= usize::MAX,
            9 * cell_size + 2 * padding <= i32::MAX,
            9 * cell_size - 2 * padding <= i32::MAX,
            -i32::MAX <= padding,
            lines_within(lines@, cell_size as int),
        ensures
            f.edges@.len() == lines@.len(),
            forall|i: int| 0 <= i < lines@.len() ==> #[trigger] f.edges@[i] == figure_edge(lines@, lines@[i], padding as int),
    {
        let area_size: usize = cell_size * 9;
        let mut points: Vec<Vec<(i8, i8)>> = Vec::new();
        let mut a: usize = 0;
        while a <= area_size
            invariant
                area_size == 9 * cell_size,
                area_size + 1 <= usize::MAX,
                a <= area_size + 1,
                points@.len() == a,
                forall|i: int| 0 <= i < a ==> (#[trigger] points@[i])@.len() == area_size + 1,
                forall|i: int, j: int| 0 <= i < a && 0 <= j <= area_size ==> #[trigger] points@[i]@[j] == (0i8, 0i8),
            decreases area_size + 1 - a,
        {
            let mut col: Vec<(i8, i8)> = Vec::new();
            let mut b: usize = 0;
            while b <= area_size
                invariant
                    area_size + 1 <= usize::MAX,
                    b <= area_size + 1,
                    col@.len() == b,
                    forall|j: int| 0 <= j < b ==> #[trigger] col@[j] == (0i8, 0i8),
                decreases area_size + 1 - b,
            {
                col.push((0i8, 0i8));
                b += 1;
            }
            points.push(col);
            a += 1;
        }
        let mut edges: Vec<Edge> = Vec::new();
        let mut i: usize = 0;
        while i < lines.len()
            invariant
                area_size == 9 * cell_size,
                area_size + 1 <= usize::MAX,
                9 * cell_size + 2 * padding <= i32::MAX,
                9 * cell_size - 2 * padding <= i32::MAX,
                lines_within(lines@, cell_size as int),
                i <= lines@.len(),
                points@.len() == area_size + 1,
                forall|p: int| 0 <= p <= area_size ==> (#[trigger] points@[p])@.len() == area_size + 1,
                forall|p: int, q: int| 0 <= p <= area_size && 0 <= q <= area_size ==>
                    #[trigger] points@[p]@[q] == corner_at(lines@, i as int, p, q),
                edges@.len() == i,
                forall|k: int| 0 <= k < i ==> #[trigger] edges@[k] == edge_of(lines@[k]),
            decreases lines@.len() - i,
        {
            let line = &lines[i];
            assert(lines@[i as int].x1 <= 9 * cell_size);
            let hv = get_hv(line);
            apply_hv(line.x1 as usize, line.y1 as usize, hv, &mut points);
            apply_hv(line.x2 as usize, line.y2 as usize, hv, &mut points);
            edges.push(Edge::from_line(line));
            i += 1;
        }
        proof {
            assert forall|p: int, q: int| 0 <= p <= area_size && 0 <= q <= area_size implies
                -1 <= (#[trigger] points@[p]@[q]).0 <= 1 && -1 <= points@[p]@[q].1 <= 1 by {
                lemma_corner_range(lines@, lines@.len() as int, p, q);
            }
        }
        let mut out: Vec<Edge> = Vec::new();
        let mut k: usize = 0;
        while k < edges.len()
            invariant
                area_size == 9 * cell_size,
                9 * cell_size + 2 * padding <= i32::MAX,
                9 * cell_size - 2 * padding <= i32::MAX,
                -i32::MAX <= padding,
                lines_within(lines@, cell_size as int),
                edges@.len() == lines@.len(),
                forall|q: int| 0 <= q < lines@.len() ==> #[trigger] edges@[q] == edge_of(lines@[q]),
                points@.len() == area_size + 1,
                forall|p: int| 0 <= p <= area_size ==> (#[trigger] points@[p])@.len() == area_size + 1,
                forall|p: int, q: int| 0 <= p <= area_size && 0 <= q <= area_size ==>
                    #[trigger] points@[p]@[q] == corner_at(lines@, lines@.len() as int, p, q),
                forall|p: int, q: int| 0 <= p <= area_size && 0 <= q <= area_size ==>
                    -1 <= (#[trigger] points@[p]@[q]).0 <= 1 && -1 <= points@[p]@[q].1 <= 1,
                k <= edges@.len(),
                out@.len() == k,
                forall|q: int| 0 <= q < k ==> #[trigger] out@[q] == figure_edge(lines@, lines@[q], padding as int),
            decreases edges@.len() - k,
        {
            let mut edge = edges[k];
            assert(lines@[k as int].x1 <= 9 * cell_size);
            edge.start = padded_point(edge.start, &points, padding, area_size);
            edge.end = padded_point(edge.end, &points, padding, area_size);
            edge.align();
            out.push(edge);
            k += 1;
        }
        Figure { edges: out }
    }
}

/// The point with the corner direction of its pixel, padded along it.
fn padded_point(p: Point, points: &Vec<Vec<(i8, i8)>>, padding: i32, area_size: usize) -> (r: Point)
    requires
        0 <= p.x <= area_size,
        0 <= p.y <= area_size,
        area_size + 2 * padding <= i32::MAX,
        area_size - 2 * padding <= i32::MAX,
        -i32::MAX <= padding,
        points@.len() == area_size + 1,
        forall|i: int| 0 <= i <= area_size ==> (#[trigger] points@[i])@.len() == area_size + 1,
        forall|i: int, j: int| 0 <= i <= area_size && 0 <= j <= area_size ==> -1 <= (#[trigger] points@[i]@[j]).0 <= 1
            && -1 <= points@[i]@[j].1 <= 1,
    ensures
        r == padded(p, points@[p.x as int]@[p.y as int], padding as int),
{
    let mut q = p;
    apply_hv_to_point(&mut q, points);
    proof {
        assert(-(padding as int) <= padding * q.h <= padding || padding <= padding * q.h <= -(padding as int))
            by (nonlinear_arith)
            requires
                -1 <= q.h <= 1;
        assert(-(padding as int) <= padding * q.v <= padding || padding <= padding * q.v <= -(padding as int))
            by (nonlinear_arith)
            requires
                -1 <= q.v <= 1;
    }
    q.apply_padding(padding);
    q
}

proof fn lemma_corner_range(lines: Seq<Line>, n: int, px: int, py: int)
    ensures
        -1 <= corner_at(lines, n, px, py).0 <= 1,
        -1 <= corner_at(lines, n, px, py).1 <= 1,
    decreases n,
{
    if n > 0 {
        lemma_corner_range(lines, n - 1, px, py);
    }
}

fn apply_hv(x: usize, y: usize, hv: (i8, i8), points: &mut Vec<Vec<(i8, i8)>>)
    requires
        x < old(points)@.len(),
        y < old(points)@[x as int]@.len(),
    ensures
        final(points)@.len() == old(points)@.len(),
        forall|i: int| 0 <= i < old(points)@.len() ==> (#[trigger] final(points)@[i])@.len() == old(points)@[i]@.len(),
        forall|i: int, j: int| 0 <= i < old(points)@.len() && 0 <= j < old(points)@[i]@.len() ==>
            #[trigger] final(points)@[i]@[j] == if i == x && j == y { apply_dir(old(points)@[i]@[j], hv) } else { old(points)@[i]@[j] },
{
    let (th, tv) = points[x][y];
    let v = (if hv.0 != 0 { hv.0 } else { th }, if hv.1 != 0 { hv.1 } else { tv });
    let mut row = points.remove(x);
    row.set(y, v);
    points.insert(x, row);
}

fn apply_hv_to_point(p: &mut Point, points: &Vec<Vec<(i8, i8)>>)
    requires
        0 <= old(p).x < points@.len(),
        0 <= old(p).y < points@[old(p).x as int]@.len(),
    ensures
        *final(p) == (Point { h: points@[old(p).x as int]@[old(p).y as int].0, v: points@[old(p).x as int]@[old(p).y as int].1, ..*old(p) }),
{
    let (h, v) = points[p.x as usize][p.y as usize];
    p.h = h;
    p.v = v;
}

} // verus!
