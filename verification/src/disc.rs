//! Which cells a disc reaches.
//!
//! A cell is a square of the plane that holds its near edges and not its
//! far ones. A disc of radius `r` reaches a cell when some point of the
//! square, whole or fractional, is nearer to the centre than `r`. The
//! centre is a lattice point, so the distance from the centre to the
//! square is a whole number of steps along each axis, and the question is
//! settled exactly. A disc of radius zero reaches the cell of its centre.
//!
//! The cells that a disc reaches are listed row by row: within each row
//! they form one unbroken run, whose half-width follows from the circle
//! equation.

use vstd::prelude::*;
use crate::plane::{
    calc_cell, cell_at, cell_coord_wide, cell_of, span_end, span_lo, Cell, Vec2, CELL_DIM,
};
use crate::root::{
    isqrt, isqrt_u128, lemma_isqrt_bounds, lemma_isqrt_exists, lemma_square_monotone,
    lemma_square_strict,
};

verus! {

/// The lattice point `(px, pz)` is nearer to `centre` than `r`.
pub open spec fn nearer_than(centre: Vec2, r: int, px: int, pz: int) -> bool {
    &&& 0 <= r
    &&& (px - centre.x) * (px - centre.x) + (pz - centre.z) * (pz - centre.z) < r * r
}

/// Whether `point` is nearer to `centre` than `radius`. No point is
/// nearer than a negative radius, or than zero.
pub fn within_reach(centre: Vec2, radius: i32, point: Vec2) -> (near: bool)
    ensures
        near == nearer_than(centre, radius as int, point.x as int, point.z as int),
{
    if radius < 0 {
        return false;
    }
    let dx: i128 = point.x as i128 - centre.x as i128;
    let dz: i128 = point.z as i128 - centre.z as i128;
    let r: i128 = radius as i128;
    assert(0 <= dx * dx <= 0x1_0000_0000_0000_0000 && 0 <= dz * dz <= 0x1_0000_0000_0000_0000 && 0
        <= r * r <= 0x1_0000_0000_0000_0000) by (nonlinear_arith)
        requires
            -0x1_0000_0000 <= dx <= 0x1_0000_0000,
            -0x1_0000_0000 <= dz <= 0x1_0000_0000,
            0 <= r <= 0x1_0000_0000,
    ;
    dx * dx + dz * dz < r * r
}

/// Distance along one axis from coordinate `c` to cell span `k`, edges
/// included; zero when `c` lies between the edges.
pub open spec fn span_gap(c: int, k: int) -> int {
    if c < span_lo(k) {
        span_lo(k) - c
    } else if c > span_end(k) {
        c - span_end(k)
    } else {
        0
    }
}

/// The squared distance from `centre` to the square of `cell`. No point
/// of the cell is nearer, and points of the cell come as near as one
/// likes to it.
pub open spec fn cell_gap2(centre: Vec2, cell: Cell) -> int {
    span_gap(centre.x as int, cell.0 as int) * span_gap(centre.x as int, cell.0 as int) + span_gap(
        centre.z as int,
        cell.1 as int,
    ) * span_gap(centre.z as int, cell.1 as int)
}

/// The disc of radius `r` around `centre` reaches `cell`: the cell holds
/// the centre, or some point of its square is nearer to the centre than
/// `r`.
pub open spec fn cell_meets_disc(centre: Vec2, r: int, cell: Cell) -> bool {
    &&& 0 <= r
    &&& cell == cell_at(centre) || cell_gap2(centre, cell) < r * r
}

/// First row that a disc of radius `r >= 1` around `centre` reaches.
pub open spec fn first_row(centre: Vec2, r: int) -> int {
    cell_of(centre.z - r)
}

/// Last row that a disc of radius `r >= 1` around `centre` reaches.
pub open spec fn last_row(centre: Vec2, r: int) -> int {
    cell_of(centre.z + r - 1)
}

/// How far from the centre's x coordinate a cell of row `z` may be for
/// the disc to reach it.
pub open spec fn half_width(centre: Vec2, r: int, z: int) -> int {
    let gap = span_gap(centre.z as int, z);
    isqrt(r * r - gap * gap - 1)
}

/// First column that the disc reaches in row `z`.
pub open spec fn row_first(centre: Vec2, r: int, z: int) -> int {
    cell_of(centre.x - half_width(centre, r, z) - 1)
}

/// Last column that the disc reaches in row `z`.
pub open spec fn row_last(centre: Vec2, r: int, z: int) -> int {
    cell_of(centre.x + half_width(centre, r, z))
}

/// The cells of row `z` that the disc reaches, by ascending column.
pub open spec fn row_cells(centre: Vec2, r: int, z: int) -> Seq<Cell> {
    Seq::new(
        (row_last(centre, r, z) - row_first(centre, r, z) + 1) as nat,
        |i: int| ((row_first(centre, r, z) + i) as i32, z as i32),
    )
}

/// The cells that the disc reaches in the rows before `z`, row by row.
pub open spec fn rows_before(centre: Vec2, r: int, z: int) -> Seq<Cell>
    decreases z - first_row(centre, r),
{
    if z <= first_row(centre, r) {
        Seq::empty()
    } else {
        rows_before(centre, r, z - 1) + row_cells(centre, r, z - 1)
    }
}

/// The cells that a disc of radius `r` around `centre` reaches: rows by
/// ascending z, each row by ascending x. A disc of radius zero reaches
/// the cell of its centre, and a negative radius reaches nothing.
pub open spec fn disc_cells(centre: Vec2, r: int) -> Seq<Cell> {
    if r < 0 {
        Seq::empty()
    } else if r == 0 {
        seq![cell_at(centre)]
    } else {
        rows_before(centre, r, last_row(centre, r) + 1)
    }
}

/// A cell span lies at or after `cell_of(a)` exactly when it ends after
/// `a`, and at or before it exactly when it begins at or before `a`.
proof fn lemma_span_order(a: int, k: int)
    ensures
        cell_of(a) <= k <==> a < span_end(k),
        k <= cell_of(a) <==> span_lo(k) <= a,
{
}

/// Within the rows that the disc reaches, the gap between the centre and
/// the row is less than the radius; in every other row it is not.
pub proof fn lemma_gap_within_radius(centre: Vec2, r: int, z: int)
    requires
        1 <= r,
    ensures
        0 <= span_gap(centre.z as int, z),
        first_row(centre, r) <= z <= last_row(centre, r) <==> span_gap(centre.z as int, z) < r,
        span_gap(centre.z as int, z) < r ==> span_gap(centre.z as int, z) * span_gap(
            centre.z as int,
            z,
        ) < r * r,
{
    let gap = span_gap(centre.z as int, z);
    lemma_span_order(centre.z - r, z);
    lemma_span_order(centre.z + r - 1, z);
    if gap < r {
        lemma_square_strict(gap, r);
    }
}

/// Within a row that the disc reaches, the half-width is at most the
/// radius, and a cell lies within the run of the row exactly when its
/// gap along x does not exceed the half-width.
pub proof fn lemma_half_width(centre: Vec2, r: int, z: int, x: int)
    requires
        1 <= r,
        first_row(centre, r) <= z <= last_row(centre, r),
    ensures
        0 <= half_width(centre, r, z) < r,
        row_first(centre, r, z) <= row_last(centre, r, z),
        row_first(centre, r, z) <= x <= row_last(centre, r, z) <==> span_gap(centre.x as int, x)
            * span_gap(centre.x as int, x) + span_gap(centre.z as int, z) * span_gap(
            centre.z as int,
            z,
        ) < r * r,
{
    let gap = span_gap(centre.z as int, z);
    let reach = span_gap(centre.x as int, x);
    let w = half_width(centre, r, z);
    lemma_gap_within_radius(centre, r, z);
    lemma_isqrt_exists(r * r - gap * gap - 1);
    lemma_isqrt_bounds(r * r - gap * gap - 1, r);
    assert(gap * gap >= 0) by (nonlinear_arith);
    lemma_isqrt_bounds(r * r - gap * gap - 1, reach);
    lemma_span_order(centre.x - w - 1, x);
    lemma_span_order(centre.x + w, x);
    lemma_span_order(centre.x - w - 1, cell_of(centre.x as int));
    lemma_span_order(centre.x + w, cell_of(centre.x as int));
}

/// Which column and row a cell of `rows_before` has.
pub proof fn lemma_rows_before_contains(centre: Vec2, radius: i32, z: int, cell: Cell)
    requires
        1 <= radius,
        first_row(centre, radius as int) <= z <= last_row(centre, radius as int) + 1,
    ensures
        rows_before(centre, radius as int, z).contains(cell) <==> {
            &&& first_row(centre, radius as int) <= cell.1 < z
            &&& row_first(centre, radius as int, cell.1 as int) <= cell.0 <= row_last(
                centre,
                radius as int,
                cell.1 as int,
            )
        },
    decreases z - first_row(centre, radius as int),
{
    let r = radius as int;
    if z > first_row(centre, r) {
        lemma_rows_before_contains(centre, radius, z - 1, cell);
        lemma_half_width(centre, r, z - 1, 0);
        let head = rows_before(centre, r, z - 1);
        let row = row_cells(centre, r, z - 1);
        let first = row_first(centre, r, z - 1);
        let last = row_last(centre, r, z - 1);
        if head.contains(cell) {
            let i = choose|i: int| 0 <= i < head.len() && head[i] == cell;
            assert((head + row)[i] == cell);
        }
        if cell.1 == z - 1 && first <= cell.0 <= last {
            assert(row[cell.0 - first] == cell);
            assert((head + row)[head.len() + cell.0 - first] == cell);
        }
        if (head + row).contains(cell) {
            let i = choose|i: int| 0 <= i < (head + row).len() && (head + row)[i] == cell;
            if i < head.len() {
                assert(head[i] == cell);
            } else {
                assert(row[i - head.len()] == cell);
            }
        }
    }
}

/// The cells listed for a disc are exactly the cells that it reaches.
pub proof fn lemma_disc_cells_exact(centre: Vec2, radius: i32, cell: Cell)
    ensures
        disc_cells(centre, radius as int).contains(cell) <==> cell_meets_disc(
            centre,
            radius as int,
            cell,
        ),
{
    let r = radius as int;
    let home = cell_at(centre);
    assert(span_gap(centre.x as int, home.0 as int) == 0);
    assert(span_gap(centre.z as int, home.1 as int) == 0);
    if r == 0 {
        assert(seq![home][0] == home);
        assert(cell_gap2(centre, cell) >= 0) by (nonlinear_arith)
            requires
                cell_gap2(centre, cell) == span_gap(centre.x as int, cell.0 as int) * span_gap(
                    centre.x as int,
                    cell.0 as int,
                ) + span_gap(centre.z as int, cell.1 as int) * span_gap(
                    centre.z as int,
                    cell.1 as int,
                ),
        ;
    } else if r > 0 {
        let z = cell.1 as int;
        let gap = span_gap(centre.z as int, z);
        let reach = span_gap(centre.x as int, cell.0 as int);
        lemma_rows_before_contains(centre, radius, last_row(centre, r) + 1, cell);
        lemma_gap_within_radius(centre, r, z);
        assert(r * r > 0) by (nonlinear_arith)
            requires
                r > 0,
        ;
        if first_row(centre, r) <= z <= last_row(centre, r) {
            lemma_half_width(centre, r, z, cell.0 as int);
        } else {
            assert(reach * reach >= 0) by (nonlinear_arith);
            lemma_square_monotone(r, gap);
        }
    }
}

/// No point of a cell is nearer to the centre than the cell's gap. The
/// point may have fractional coordinates: it is given in `k`-ths of a
/// step, as `(qx / k, qz / k)`.
pub proof fn lemma_gap_is_nearest(centre: Vec2, cell: Cell, k: int, qx: int, qz: int)
    requires
        1 <= k,
        k * span_lo(cell.0 as int) <= qx < k * span_end(cell.0 as int),
        k * span_lo(cell.1 as int) <= qz < k * span_end(cell.1 as int),
    ensures
        k * k * cell_gap2(centre, cell) <= (qx - k * centre.x) * (qx - k * centre.x) + (qz - k
            * centre.z) * (qz - k * centre.z),
{
    let gx = span_gap(centre.x as int, cell.0 as int);
    let gz = span_gap(centre.z as int, cell.1 as int);
    lemma_axis_gap(centre.x as int, cell.0 as int, k, qx);
    lemma_axis_gap(centre.z as int, cell.1 as int, k, qz);
    let ax = (qx - k * centre.x) * (qx - k * centre.x);
    let az = (qz - k * centre.z) * (qz - k * centre.z);
    assert(k * k * (gx * gx + gz * gz) == k * k * (gx * gx) + k * k * (gz * gz))
        by (nonlinear_arith);
}

/// Along one axis, no coordinate of a span is nearer to `c` than the gap.
proof fn lemma_axis_gap(c: int, span: int, k: int, q: int)
    requires
        1 <= k,
        k * span_lo(span) <= q < k * span_end(span),
    ensures
        k * k * (span_gap(c, span) * span_gap(c, span)) <= (q - k * c) * (q - k * c),
{
    let g = span_gap(c, span);
    let d = q - k * c;
    let a = if d < 0 { -d } else { d };
    if c < span_lo(span) {
        assert(k * g == k * span_lo(span) - k * c) by (nonlinear_arith)
            requires
                g == span_lo(span) - c,
        ;
    } else if c > span_end(span) {
        assert(k * g == k * c - k * span_end(span)) by (nonlinear_arith)
            requires
                g == c - span_end(span),
        ;
    } else {
        assert(k * g == 0) by (nonlinear_arith)
            requires
                g == 0,
        ;
    }
    assert(0 <= k * g <= a) by (nonlinear_arith)
        requires
            1 <= k,
            0 <= g,
            k * g <= a,
    ;
    assert(k * k * (g * g) <= a * a) by (nonlinear_arith)
        requires
            0 <= k * g <= a,
    {
        assert((k * g) * (k * g) == k * k * (g * g));
        assert((k * g) * (k * g) <= a * a);
    }
    assert(a * a == d * d) by (nonlinear_arith)
        requires
            a == d || a == -d,
    ;
}

/// No false negatives: a cell is among the cells listed for a disc
/// whenever some point of its square is nearer to the centre than the
/// radius. The point may have fractional coordinates: it is given in
/// `k`-ths of a step, as `(qx / k, qz / k)`.
pub proof fn lemma_disc_cells_complete(
    centre: Vec2,
    radius: i32,
    cell: Cell,
    k: int,
    qx: int,
    qz: int,
)
    requires
        0 <= radius,
        1 <= k,
        k * span_lo(cell.0 as int) <= qx < k * span_end(cell.0 as int),
        k * span_lo(cell.1 as int) <= qz < k * span_end(cell.1 as int),
        (qx - k * centre.x) * (qx - k * centre.x) + (qz - k * centre.z) * (qz - k * centre.z) < k
            * k * (radius * radius),
    ensures
        disc_cells(centre, radius as int).contains(cell),
{
    lemma_gap_is_nearest(centre, cell, k, qx, qz);
    let g2 = cell_gap2(centre, cell);
    let r2 = radius * radius;
    assert(g2 < r2) by (nonlinear_arith)
        requires
            k * k * g2 < k * k * r2,
            1 <= k,
    ;
    lemma_disc_cells_exact(centre, radius, cell);
}

/// The cell of every lattice point that is nearer to the centre than the
/// radius is among the cells listed for the disc.
pub proof fn lemma_disc_cells_hold_near_points(centre: Vec2, radius: i32, px: int, pz: int)
    requires
        nearer_than(centre, radius as int, px, pz),
    ensures
        i32::MIN <= cell_of(px) <= i32::MAX,
        i32::MIN <= cell_of(pz) <= i32::MAX,
        disc_cells(centre, radius as int).contains((cell_of(px) as i32, cell_of(pz) as i32)),
{
    let r = radius as int;
    let dx = px - centre.x;
    let dz = pz - centre.z;
    let ax = if dx < 0 { -dx } else { dx };
    let az = if dz < 0 { -dz } else { dz };
    assert(ax * ax == dx * dx && az * az == dz * dz && ax * ax >= 0 && az * az >= 0)
        by (nonlinear_arith)
        requires
            ax == dx || ax == -dx,
            az == dz || az == -dz,
    ;
    if az >= r {
        lemma_square_monotone(r, az);
    }
    if ax >= r {
        lemma_square_monotone(r, ax);
    }
    let cell = (cell_of(px) as i32, cell_of(pz) as i32);
    assert(1 * span_lo(cell.0 as int) == span_lo(cell.0 as int));
    assert(r * r == 1 * 1 * (r * r)) by (nonlinear_arith);
    lemma_disc_cells_complete(centre, radius, cell, 1, px, pz);
}

/// Row-major order on cells: by row, then by column.
pub open spec fn cell_before(a: Cell, b: Cell) -> bool {
    a.1 < b.1 || (a.1 == b.1 && a.0 < b.0)
}

/// The cells listed for a disc are in strictly ascending row-major order,
/// so no cell is listed twice.
pub proof fn lemma_disc_cells_ordered(centre: Vec2, radius: i32)
    ensures
        forall|i: int, j: int|
            0 <= i < j < disc_cells(centre, radius as int).len() ==> cell_before(
                #[trigger] disc_cells(centre, radius as int)[i],
                #[trigger] disc_cells(centre, radius as int)[j],
            ),
        disc_cells(centre, radius as int).no_duplicates(),
{
    if radius >= 1 {
        lemma_rows_before_ordered(centre, radius, last_row(centre, radius as int) + 1);
    }
}

proof fn lemma_rows_before_ordered(centre: Vec2, radius: i32, z: int)
    requires
        1 <= radius,
        first_row(centre, radius as int) <= z <= last_row(centre, radius as int) + 1,
    ensures
        forall|i: int, j: int|
            0 <= i < j < rows_before(centre, radius as int, z).len() ==> cell_before(
                #[trigger] rows_before(centre, radius as int, z)[i],
                #[trigger] rows_before(centre, radius as int, z)[j],
            ),
        rows_before(centre, radius as int, z).no_duplicates(),
    decreases z - first_row(centre, radius as int),
{
    let r = radius as int;
    if z > first_row(centre, r) {
        lemma_rows_before_ordered(centre, radius, z - 1);
        lemma_half_width(centre, r, z - 1, 0);
        let head = rows_before(centre, r, z - 1);
        let row = row_cells(centre, r, z - 1);
        let all = rows_before(centre, r, z);
        assert forall|i: int, j: int| 0 <= i < j < all.len() implies cell_before(
            #[trigger] all[i],
            #[trigger] all[j],
        ) by {
            if i < head.len() {
                lemma_rows_before_contains(centre, radius, z - 1, head[i]);
            }
        }
    }
}

/// Lists the cells that a disc of radius `radius` around `pos` reaches.
pub fn covering_cells(pos: Vec2, radius: i32) -> (cells: Vec<Cell>)
    ensures
        cells@ == disc_cells(pos, radius as int),
        forall|cell: Cell| #[trigger]
            cells@.contains(cell) <==> cell_meets_disc(pos, radius as int, cell),
        cells@.no_duplicates(),
{
    let mut out: Vec<Cell> = Vec::new();
    proof {
        lemma_disc_cells_ordered(pos, radius);
        assert forall|cell: Cell| #[trigger]
            disc_cells(pos, radius as int).contains(cell) <==> cell_meets_disc(
                pos,
                radius as int,
                cell,
            ) by {
            lemma_disc_cells_exact(pos, radius, cell);
        }
    }
    if radius < 0 {
        return out;
    }
    if radius == 0 {
        out.push(calc_cell(pos));
        assert(out@ =~= seq![cell_at(pos)]);
        return out;
    }
    let dim: i64 = CELL_DIM as i64;
    let cx: i64 = pos.x as i64;
    let cz: i64 = pos.z as i64;
    let r: i64 = radius as i64;
    let minz: i64 = cell_coord_wide(cz - r);
    let maxz: i64 = cell_coord_wide(cz + r - 1);
    assert(r * r <= 0x4000_0000_0000_0000) by (nonlinear_arith)
        requires
            0 <= r <= 0x7fff_ffff,
    ;
    let r2: i64 = r * r;
    let mut z: i64 = minz;
    while z <= maxz
        invariant
            1 <= r <= 0x7fff_ffff,
            r == radius,
            r2 == r * r,
            dim == CELL_DIM,
            cx == pos.x,
            cz == pos.z,
            minz == first_row(pos, r as int),
            maxz == last_row(pos, r as int),
            minz <= z <= maxz + 1,
            out@ == rows_before(pos, r as int, z as int),
        decreases maxz + 1 - z,
    {
        let lo: i64 = z * dim;
        let end: i64 = lo + dim;
        let gap: i64 = if cz < lo {
            lo - cz
        } else if cz > end {
            cz - end
        } else {
            0
        };
        proof {
            lemma_gap_within_radius(pos, r as int, z as int);
            lemma_half_width(pos, r as int, z as int, 0);
        }
        assert(gap == span_gap(pos.z as int, z as int));
        assert(0 <= gap * gap < r2) by (nonlinear_arith)
            requires
                0 <= gap,
                gap * gap < r2,
        ;
        let w: i64 = isqrt_u128((r2 - gap * gap - 1) as u128) as i64;
        assert(w == half_width(pos, r as int, z as int));
        let minx: i64 = cell_coord_wide(cx - w - 1);
        let maxx: i64 = cell_coord_wide(cx + w);
        let ghost before = out@;
        let mut x: i64 = minx;
        while x <= maxx
            invariant
                minx == row_first(pos, r as int, z as int),
                maxx == row_last(pos, r as int, z as int),
                minx <= maxx,
                i32::MIN <= minx,
                maxx <= i32::MAX,
                i32::MIN <= z <= i32::MAX,
                minx <= x <= maxx + 1,
                out@ == before + row_cells(pos, r as int, z as int).take(x - minx),
            decreases maxx + 1 - x,
        {
            out.push((x as i32, z as i32));
            assert(row_cells(pos, r as int, z as int).take(x - minx + 1)
                =~= row_cells(pos, r as int, z as int).take(x - minx).push(
                (x as i32, z as i32),
            ));
            x = x + 1;
        }
        assert(row_cells(pos, r as int, z as int).take(maxx + 1 - minx) =~= row_cells(
            pos,
            r as int,
            z as int,
        ));
        z = z + 1;
    }
    out
}

} // verus!
