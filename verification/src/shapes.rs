//! Shape drawing tools: the tool state between clicks, its +/- parameter,
//! what each click does, and the topology of the line chains a finished
//! shape becomes (which new vertices each new linedef joins). The vertex
//! positions of a shape are computed by the caller; the point type `P` is
//! the caller's.

use vstd::prelude::*;

verus! {

/// The active drawing tool. Shape tools remember the clicks so far.
#[derive(Clone, Debug, PartialEq)]
pub enum DrawTool<P> {
    Free,
    Rectangle { origin: Option<P>, bevel: u32 },
    Ellipse { origin: Option<P>, subdivisions: u32 },
    Curve { points: Vec<P>, subdivisions: u32 },
    Grid { origin: Option<P>, cols: u32, rows: u32 },
}

impl<P> DrawTool<P> {
    pub fn label(&self) -> (s: &'static str)
        ensures
            s@ == match self {
                DrawTool::Free => "Free draw"@,
                DrawTool::Rectangle { .. } => "Rectangle draw"@,
                DrawTool::Ellipse { .. } => "Ellipse draw"@,
                DrawTool::Curve { .. } => "Curve draw"@,
                DrawTool::Grid { .. } => "Grid draw"@,
            },
    {
        match self {
            DrawTool::Free => "Free draw",
            DrawTool::Rectangle { .. } => "Rectangle draw",
            DrawTool::Ellipse { .. } => "Ellipse draw",
            DrawTool::Curve { .. } => "Curve draw",
            DrawTool::Grid { .. } => "Grid draw",
        }
    }
}

pub open spec fn clamp_int(v: int, lo: int, hi: int) -> int {
    if v < lo {
        lo
    } else if v > hi {
        hi
    } else {
        v
    }
}

/// `v + d`, held to `lo..=hi`.
fn nudge(v: u32, d: i32, lo: u32, hi: u32) -> (r: u32)
    requires
        lo <= hi,
    ensures
        r == clamp_int(v + d, lo as int, hi as int),
{
    let x: i64 = v as i64 + d as i64;
    if x < lo as i64 {
        lo
    } else if x > hi as i64 {
        hi
    } else {
        x as u32
    }
}

/// The tool after the +/- key: bevel within 0..=64, ellipse subdivisions
/// within 4..=128, curve subdivisions within 2..=128, grid cells within
/// 1..=64 on both axes together.
pub open spec fn adjusted<P>(t: DrawTool<P>, d: int) -> DrawTool<P> {
    match t {
        DrawTool::Free => DrawTool::Free,
        DrawTool::Rectangle { origin, bevel } => DrawTool::Rectangle { origin, bevel: clamp_int(bevel + d, 0, 64) as u32 },
        DrawTool::Ellipse { origin, subdivisions } => DrawTool::Ellipse {
            origin,
            subdivisions: clamp_int(subdivisions + d, 4, 128) as u32,
        },
        DrawTool::Curve { points, subdivisions } => DrawTool::Curve {
            points,
            subdivisions: clamp_int(subdivisions + d, 2, 128) as u32,
        },
        DrawTool::Grid { origin, cols, rows } => DrawTool::Grid {
            origin,
            cols: clamp_int(cols + d, 1, 64) as u32,
            rows: clamp_int(rows + d, 1, 64) as u32,
        },
    }
}

/// The +/- key while drawing: nudge the active shape tool's parameter.
pub fn adjust_draw_param<P>(tool: &mut DrawTool<P>, delta: i32)
    ensures
        *final(tool) == adjusted(*old(tool), delta as int),
{
    match tool {
        DrawTool::Free => {},
        DrawTool::Rectangle { bevel, .. } => {
            *bevel = nudge(*bevel, delta, 0, 64);
        },
        DrawTool::Ellipse { subdivisions, .. } => {
            *subdivisions = nudge(*subdivisions, delta, 4, 128);
        },
        DrawTool::Curve { subdivisions, .. } => {
            *subdivisions = nudge(*subdivisions, delta, 2, 128);
        },
        DrawTool::Grid { cols, rows, .. } => {
            *cols = nudge(*cols, delta, 1, 64);
            *rows = nudge(*rows, delta, 1, 64);
        },
    }
}

/// A finished shape, ready to be turned into vertices and a line chain.
#[derive(Clone, Copy, Debug, PartialEq)]
pub enum ShapeCommit<P> {
    /// The rectangle with corners `a` and `b`, corners cut by `bevel`; a
    /// closed chain.
    Rectangle { a: P, b: P, bevel: u32 },
    /// The ellipse inscribed in the box with corners `a` and `b`, as a closed
    /// polygon of `subdivisions` sides.
    Ellipse { a: P, b: P, subdivisions: u32 },
    /// The quadratic curve from `start` to `end` bent towards `control`, as
    /// an open chain of `subdivisions` segments. The curve tool's clicks
    /// are the start, the end, then the control point.
    Curve { start: P, end: P, control: P, subdivisions: u32 },
    /// A grid of `cols` by `rows` cells (each at least one) in the box with
    /// corners `a` and `b`.
    Grid { a: P, b: P, cols: u32, rows: u32 },
}

/// What a click with a shape tool does.
#[derive(Clone, Copy, Debug, PartialEq)]
pub enum ShapeStep<P> {
    /// The free tool has no shape clicks.
    Nothing,
    /// The first corner is recorded; the opposite corner comes next.
    Origin,
    /// A curve point is recorded; this many are held so far (1 or 2).
    CurvePoint(usize),
    /// The shape is complete.
    Commit(ShapeCommit<P>),
}

/// The tool after a click at `w`, and what the click does.
pub open spec fn clicked<P>(t: DrawTool<P>, w: P) -> (DrawTool<P>, ShapeStep<P>) {
    match t {
        DrawTool::Free => (t, ShapeStep::Nothing),
        DrawTool::Rectangle { origin, bevel } => match origin {
            None => (DrawTool::Rectangle { origin: Some(w), bevel }, ShapeStep::Origin),
            Some(o) => (t, ShapeStep::Commit(ShapeCommit::Rectangle { a: o, b: w, bevel })),
        },
        DrawTool::Ellipse { origin, subdivisions } => match origin {
            None => (DrawTool::Ellipse { origin: Some(w), subdivisions }, ShapeStep::Origin),
            Some(o) => (t, ShapeStep::Commit(ShapeCommit::Ellipse { a: o, b: w, subdivisions })),
        },
        DrawTool::Curve { points, subdivisions } => {
            let pts = points@.push(w);
            if pts.len() < 3 {
                (DrawTool::Curve { points, subdivisions }, ShapeStep::CurvePoint(pts.len() as usize))
            } else {
                (
                    DrawTool::Curve { points, subdivisions },
                    ShapeStep::Commit(ShapeCommit::Curve { start: pts[0], end: pts[1], control: pts[2], subdivisions }),
                )
            }
        },
        DrawTool::Grid { origin, cols, rows } => match origin {
            None => (DrawTool::Grid { origin: Some(w), cols, rows }, ShapeStep::Origin),
            Some(o) => (
                t,
                ShapeStep::Commit(
                    ShapeCommit::Grid {
                        a: o,
                        b: w,
                        cols: if cols >= 1 { cols } else { 1 },
                        rows: if rows >= 1 { rows } else { 1 },
                    },
                ),
            ),
        },
    }
}

/// The points a curve tool holds.
pub open spec fn curve_points<P>(t: DrawTool<P>) -> Seq<P> {
    match t {
        DrawTool::Curve { points, .. } => points@,
        _ => Seq::empty(),
    }
}

/// A click with a shape tool at `w`: record a corner or curve point, or
/// complete the shape. A curve keeps each point it is given.
pub fn shape_click<P: Copy>(tool: &mut DrawTool<P>, w: P) -> (step: ShapeStep<P>)
    requires
        curve_points(*old(tool)).len() < usize::MAX,
    ensures
        step == clicked(*old(tool), w).1,
        match *old(tool) {
            DrawTool::Curve { subdivisions, .. } => *final(tool) matches DrawTool::Curve { points, subdivisions: s }
                && s == subdivisions && points@ == curve_points(*old(tool)).push(w),
            _ => *final(tool) == clicked(*old(tool), w).0,
        },
{
    match tool {
        DrawTool::Free => ShapeStep::Nothing,
        DrawTool::Rectangle { origin, bevel } => match *origin {
            None => {
                *origin = Some(w);
                ShapeStep::Origin
            },
            Some(o) => ShapeStep::Commit(ShapeCommit::Rectangle { a: o, b: w, bevel: *bevel }),
        },
        DrawTool::Ellipse { origin, subdivisions } => match *origin {
            None => {
                *origin = Some(w);
                ShapeStep::Origin
            },
            Some(o) => ShapeStep::Commit(ShapeCommit::Ellipse { a: o, b: w, subdivisions: *subdivisions }),
        },
        DrawTool::Curve { points, subdivisions } => {
            points.push(w);
            if points.len() < 3 {
                ShapeStep::CurvePoint(points.len())
            } else {
                ShapeStep::Commit(
                    ShapeCommit::Curve { start: points[0], end: points[1], control: points[2], subdivisions: *subdivisions },
                )
            }
        },
        DrawTool::Grid { origin, cols, rows } => match *origin {
            None => {
                *origin = Some(w);
                ShapeStep::Origin
            },
            Some(o) => ShapeStep::Commit(
                ShapeCommit::Grid {
                    a: o,
                    b: w,
                    cols: if *cols >= 1 { *cols } else { 1 },
                    rows: if *rows >= 1 { *rows } else { 1 },
                },
            ),
        },
    }
}

// ---------------------------------------------------------------------------
// Chain topology.

/// Links of a polyline through points 0..n: each point to the next, and the
/// last back to the first when closed.
pub open spec fn polyline_links_spec(n: nat, closed: bool) -> Seq<(usize, usize)> {
    let count: int = if closed { n as int } else { n - 1 };
    Seq::new(count as nat, |i: int| (i as usize, ((i + 1) % (n as int)) as usize))
}

/// The linedefs of a shape's chain as pairs of new-vertex indices.
pub fn polyline_links(n: usize, closed: bool) -> (r: Vec<(usize, usize)>)
    requires
        closed || n >= 1,
    ensures
        r@ == polyline_links_spec(n as nat, closed),
{
    let count: usize = if closed { n } else { n - 1 };
    let mut out: Vec<(usize, usize)> = Vec::new();
    let mut i: usize = 0;
    while i < count
        invariant
            count == (if closed { n as int } else { n - 1 }),
            count <= n,
            0 <= i <= count,
            out@ =~= Seq::new(i as nat, |k: int| (k as usize, ((k + 1) % (n as int)) as usize)),
        decreases count - i,
    {
        let next: usize = if i + 1 == n { 0 } else { i + 1 };
        assert(next == ((i + 1) % (n as int)) as usize) by {
            if i + 1 < n {
                vstd::arithmetic::div_mod::lemma_small_mod((i + 1) as nat, n as nat);
            } else {
                vstd::arithmetic::div_mod::lemma_mod_self_0(n as int);
            }
        }
        out.push((i, next));
        i = i + 1;
    }
    out
}

/// Horizontal links of row `rr` of a grid `nx` points wide: `c` links, each
/// point to its right-hand neighbour.
pub open spec fn row_links(nx: int, rr: int, c: int) -> Seq<(usize, usize)> {
    Seq::new(c as nat, |cc: int| ((rr * nx + cc) as usize, (rr * nx + cc + 1) as usize))
}

/// Vertical links of column `cc`: `r` links, each point to the one a row
/// up.
pub open spec fn column_links(nx: int, cc: int, r: int) -> Seq<(usize, usize)> {
    Seq::new(r as nat, |rr: int| ((rr * nx + cc) as usize, ((rr + 1) * nx + cc) as usize))
}

pub open spec fn rows_links(nx: int, c: int, rows: nat) -> Seq<(usize, usize)>
    decreases rows,
{
    if rows == 0 {
        Seq::empty()
    } else {
        rows_links(nx, c, (rows - 1) as nat) + row_links(nx, rows - 1, c)
    }
}

pub open spec fn columns_links(nx: int, r: int, cols: nat) -> Seq<(usize, usize)>
    decreases cols,
{
    if cols == 0 {
        Seq::empty()
    } else {
        columns_links(nx, r, (cols - 1) as nat) + column_links(nx, cols - 1, r)
    }
}

/// The links of a `c` by `r` grid whose points are numbered row by row,
/// `c + 1` to a row: the horizontal links row by row, then the vertical
/// links column by column.
pub open spec fn grid_links_spec(c: nat, r: nat) -> Seq<(usize, usize)> {
    rows_links(c + 1 as int, c as int, r + 1) + columns_links(c + 1 as int, r as int, c + 1)
}

/// The linedefs of a grid chain as pairs of new-vertex indices.
pub fn grid_links(cols: usize, rows: usize) -> (out: Vec<(usize, usize)>)
    requires
        2 * (cols + 1) * (rows + 1) <= usize::MAX,
    ensures
        out@ == grid_links_spec(cols as nat, rows as nat),
{
    assert(cols + 1 <= usize::MAX && rows + 1 <= usize::MAX) by (nonlinear_arith)
        requires
            2 * (cols + 1) * (rows + 1) <= usize::MAX,
    ;
    let nx = cols + 1;
    let ny = rows + 1;
    assert(ny * nx <= usize::MAX && 2 * (ny * nx) <= usize::MAX) by (nonlinear_arith)
        requires
            2 * (cols + 1) * (rows + 1) <= usize::MAX,
            nx == cols + 1,
            ny == rows + 1,
    ;
    let mut out: Vec<(usize, usize)> = Vec::new();
    let mut rr: usize = 0;
    while rr < ny
        invariant
            nx == cols + 1,
            ny == rows + 1,
            ny * nx <= usize::MAX,
            0 <= rr <= ny,
            out@ == rows_links(nx as int, cols as int, rr as nat),
        decreases ny - rr,
    {
        let ghost before = out@;
        let mut cc: usize = 0;
        while cc < cols
            invariant
                nx == cols + 1,
                ny == rows + 1,
                ny * nx <= usize::MAX,
                0 <= rr < ny,
                0 <= cc <= cols,
                out@ == before + row_links(nx as int, rr as int, cc as int),
            decreases cols - cc,
        {
            assert(rr * nx + cc + 1 <= ny * nx) by (nonlinear_arith)
                requires
                    rr < ny,
                    cc < cols,
                    nx == cols + 1,
            ;
            let a = rr * nx + cc;
            out.push((a, a + 1));
            assert(row_links(nx as int, rr as int, cc + 1) =~= row_links(nx as int, rr as int, cc as int).push((a, (a + 1) as usize)));
            cc = cc + 1;
        }
        rr = rr + 1;
    }
    let ghost horizontal = out@;
    let mut cc: usize = 0;
    while cc < nx
        invariant
            nx == cols + 1,
            ny == rows + 1,
            ny * nx <= usize::MAX,
            0 <= cc <= nx,
            horizontal == rows_links(nx as int, cols as int, ny as nat),
            out@ == horizontal + columns_links(nx as int, rows as int, cc as nat),
        decreases nx - cc,
    {
        let ghost before = out@;
        let mut rr: usize = 0;
        while rr < rows
            invariant
                nx == cols + 1,
                ny == rows + 1,
                ny * nx <= usize::MAX,
                0 <= cc < nx,
                0 <= rr <= rows,
                out@ == before + column_links(nx as int, cc as int, rr as int),
            decreases rows - rr,
        {
            assert((rr + 1) * nx + cc < ny * nx) by (nonlinear_arith)
                requires
                    rr < rows,
                    cc < nx,
                    ny == rows + 1,
            ;
            assert(rr * nx + cc <= (rr + 1) * nx + cc) by (nonlinear_arith)
                requires
                    nx >= 1,
            ;
            let a = rr * nx + cc;
            let b = (rr + 1) * nx + cc;
            out.push((a, b));
            assert(column_links(nx as int, cc as int, rr + 1) =~= column_links(nx as int, cc as int, rr as int).push((a, b)));
            rr = rr + 1;
        }
        assert(out@ =~= horizontal + columns_links(nx as int, rows as int, (cc + 1) as nat));
        cc = cc + 1;
    }
    out
}

proof fn lemma_rows_links_len(nx: int, c: int, rows: nat)
    requires
        c >= 0,
    ensures
        rows_links(nx, c, rows).len() == rows * c,
    decreases rows,
{
    if rows > 0 {
        lemma_rows_links_len(nx, c, (rows - 1) as nat);
        assert(row_links(nx, rows - 1, c).len() == c);
        assert(rows * c == (rows - 1) * c + c) by (nonlinear_arith);
    } else {
        assert(rows * c == 0) by (nonlinear_arith)
            requires
                rows == 0,
        ;
    }
}

proof fn lemma_columns_links_len(nx: int, r: int, cols: nat)
    requires
        r >= 0,
    ensures
        columns_links(nx, r, cols).len() == cols * r,
    decreases cols,
{
    if cols > 0 {
        lemma_columns_links_len(nx, r, (cols - 1) as nat);
        assert(column_links(nx, cols - 1, r).len() == r);
        assert(cols * r == (cols - 1) * r + r) by (nonlinear_arith);
    } else {
        assert(cols * r == 0) by (nonlinear_arith)
            requires
                cols == 0,
        ;
    }
}

/// A grid of `c` by `r` cells has (c + 1) * r + (r + 1) * c linedefs: the
/// horizontal ones of its r + 1 rows of points and the vertical ones of its
/// c + 1 columns.
pub proof fn lemma_grid_link_count(c: nat, r: nat)
    ensures
        grid_links_spec(c, r).len() == (c + 1) * r + (r + 1) * c,
{
    lemma_rows_links_len(c + 1 as int, c as int, r + 1);
    lemma_columns_links_len(c + 1 as int, r as int, c + 1);
}

pub open spec fn links_below(s: Seq<(usize, usize)>, total: int) -> bool {
    forall|k: int| 0 <= k < s.len() ==> (#[trigger] s[k]).0 < total && s[k].1 < total
}

proof fn lemma_rows_links_below(nx: int, c: int, rows: nat, total: int)
    requires
        nx == c + 1,
        c >= 0,
        rows * nx <= total,
        total <= usize::MAX,
    ensures
        links_below(rows_links(nx, c, rows), total),
    decreases rows,
{
    if rows > 0 {
        let rr = rows - 1;
        assert(rr * nx <= total) by (nonlinear_arith)
            requires
                rows * nx <= total,
                rr == rows - 1,
                nx >= 1,
        ;
        lemma_rows_links_below(nx, c, rr as nat, total);
        let prev = rows_links(nx, c, rr as nat);
        let row = row_links(nx, rr, c);
        assert forall|k: int| 0 <= k < row.len() implies (#[trigger] row[k]).0 < total && row[k].1 < total by {
            assert(rr * nx + k + 1 < total) by (nonlinear_arith)
                requires
                    0 <= k < c,
                    nx == c + 1,
                    rr + 1 == rows,
                    rows * nx <= total,
                    rr >= 0,
            ;
        }
        let all = prev + row;
        assert forall|k: int| 0 <= k < all.len() implies (#[trigger] all[k]).0 < total && all[k].1 < total by {
            if k < prev.len() {
                assert(all[k] == prev[k]);
            } else {
                assert(all[k] == row[k - prev.len()]);
            }
        }
    }
}

proof fn lemma_columns_links_below(nx: int, r: int, cols: nat, total: int)
    requires
        r >= 0,
        cols <= nx,
        (r + 1) * nx <= total,
        total <= usize::MAX,
    ensures
        links_below(columns_links(nx, r, cols), total),
    decreases cols,
{
    if cols > 0 {
        let cc = cols - 1;
        lemma_columns_links_below(nx, r, cc as nat, total);
        let prev = columns_links(nx, r, cc as nat);
        let col = column_links(nx, cc, r);
        assert forall|k: int| 0 <= k < col.len() implies (#[trigger] col[k]).0 < total && col[k].1 < total by {
            assert(k * nx + cc < total && (k + 1) * nx + cc < total && k * nx + cc >= 0) by (nonlinear_arith)
                requires
                    0 <= k < r,
                    0 <= cc < nx,
                    (r + 1) * nx <= total,
            ;
        }
        let all = prev + col;
        assert forall|k: int| 0 <= k < all.len() implies (#[trigger] all[k]).0 < total && all[k].1 < total by {
            if k < prev.len() {
                assert(all[k] == prev[k]);
            } else {
                assert(all[k] == col[k - prev.len()]);
            }
        }
    }
}

/// Every link of a grid chain joins two of its (c + 1) * (r + 1) points.
pub proof fn lemma_grid_links_in_grid(c: nat, r: nat)
    requires
        2 * (c + 1) * (r + 1) <= usize::MAX,
    ensures
        links_below(grid_links_spec(c, r), ((c + 1) * (r + 1)) as int),
{
    let total: int = ((c + 1) * (r + 1)) as int;
    assert((r + 1) * (c + 1) == total && total <= usize::MAX) by (nonlinear_arith)
        requires
            total == (c + 1) * (r + 1),
            2 * (c + 1) * (r + 1) <= usize::MAX,
    ;
    lemma_rows_links_below(c + 1 as int, c as int, r + 1, total);
    lemma_columns_links_below(c + 1 as int, r as int, c + 1, total);
    let h = rows_links(c + 1 as int, c as int, r + 1);
    let v = columns_links(c + 1 as int, r as int, c + 1);
    let all = h + v;
    assert forall|k: int| 0 <= k < all.len() implies (#[trigger] all[k]).0 < total && all[k].1 < total by {
        if k < h.len() {
            assert(all[k] == h[k]);
        } else {
            assert(all[k] == v[k - h.len()]);
        }
    }
}

} // verus!
