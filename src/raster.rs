use vstd::prelude::*;
use vstd::arithmetic::div_mod::{
    lemma_fundamental_div_mod,
    lemma_fundamental_div_mod_converse,
    lemma_mod_pos_bound,
};
use vstd::arithmetic::mul::{lemma_mul_inequality, lemma_mul_strict_inequality};
use crate::geometry::Point;

verus! {

/// Sub-cells per grid cell along each axis.
pub const SUPERSAMPLE: usize = 4;

/// Sub-cells per grid cell: a cell's coverage is its hit count over this.
pub const COVERAGE_DEN: u8 = 16;

/// Largest grid side accepted by the rasterizer.
pub const MAX_GRID: usize = 1024;

/// Largest cell side accepted, in position units.
pub const MAX_CELL: i64 = 0x10_0000;

/// One piece of an agent's visible region. The vertices come in any order.
#[derive(Clone, Copy, Debug, PartialEq, Eq, Structural)]
pub struct Triangle {
    pub a: Point,
    pub b: Point,
    pub c: Point,
}

impl Triangle {
    pub open spec fn valid(self) -> bool {
        self.a.valid() && self.b.valid() && self.c.valid()
    }
}

/// The vertices ordered from bottom to top; vertices of equal height keep
/// their input order.
pub open spec fn sorted_vertices(t: Triangle) -> (Point, Point, Point) {
    if t.a.y <= t.b.y {
        if t.b.y <= t.c.y {
            (t.a, t.b, t.c)
        } else if t.a.y <= t.c.y {
            (t.a, t.c, t.b)
        } else {
            (t.c, t.a, t.b)
        }
    } else {
        if t.a.y <= t.c.y {
            (t.b, t.a, t.c)
        } else if t.b.y <= t.c.y {
            (t.b, t.c, t.a)
        } else {
            (t.c, t.b, t.a)
        }
    }
}

/// Sub-row `row` is scanned along the line `y = row * cell / 4`. Where the
/// edge `a -> b` crosses that line, its x coordinate in sub-cell units is
/// `edge_num / edge_den`.
pub open spec fn edge_num(a: Point, b: Point, row: int, cell: int) -> int {
    4 * a.x * (b.y - a.y) + (b.x - a.x) * (row * cell - 4 * a.y)
}

pub open spec fn edge_den(a: Point, b: Point, cell: int) -> int {
    cell * (b.y - a.y)
}

/// The scan line of sub-row `row` lies in `[lo.y, hi.y)`.
pub open spec fn row_in_span(lo: Point, hi: Point, row: int, cell: int) -> bool {
    4 * lo.y <= row * cell && row * cell < 4 * hi.y
}

/// The crossing of edge `a -> b` lies left of `col + 1`, i.e. `floor(x) <= col`.
pub open spec fn crosses_before(a: Point, b: Point, row: int, col: int, cell: int) -> bool {
    edge_num(a, b, row, cell) < (col + 1) * edge_den(a, b, cell)
}

/// The crossing of edge `a -> b` lies right of `col`, i.e. `col < ceil(x)`.
pub open spec fn crosses_after(a: Point, b: Point, row: int, col: int, cell: int) -> bool {
    col * edge_den(a, b, cell) < edge_num(a, b, row, cell)
}

/// Column `col` lies in `[floor(left), ceil(right))`, where `left` and
/// `right` are the smaller and the larger crossing of the two edges.
pub open spec fn col_in_span(
    la: Point,
    lb: Point,
    sa: Point,
    sb: Point,
    row: int,
    col: int,
    cell: int,
) -> bool {
    (crosses_before(la, lb, row, col, cell) || crosses_before(sa, sb, row, col, cell)) && (
    crosses_after(la, lb, row, col, cell) || crosses_after(sa, sb, row, col, cell))
}

/// The half-triangle between the long edge `la -> lb` and the short edge
/// `sa -> sb` marks sub-cell `(row, col)`.
pub open spec fn half_covers(
    la: Point,
    lb: Point,
    sa: Point,
    sb: Point,
    row: int,
    col: int,
    cell: int,
) -> bool {
    row_in_span(sa, sb, row, cell) && col_in_span(la, lb, sa, sb, row, col, cell)
}

/// A triangle is split at the height of its middle vertex into a lower and
/// an upper half, each bounded by the long edge and one short edge.
pub open spec fn tri_covers(t: Triangle, row: int, col: int, cell: int) -> bool {
    let (v0, v1, v2) = sorted_vertices(t);
    half_covers(v0, v2, v0, v1, row, col, cell) || half_covers(v0, v2, v1, v2, row, col, cell)
}

/// Some triangle of `tris` marks sub-cell `(row, col)`.
pub open spec fn covered(tris: Seq<Triangle>, row: int, col: int, cell: int) -> bool {
    exists|i: int| 0 <= i < tris.len() && #[trigger] tri_covers(tris[i], row, col, cell)
}

proof fn lemma_floor_div(num: int, den: int, c: int)
    requires
        num >= 0,
        den > 0,
    ensures
        num / den <= c <==> num < c * den + den,
{
    lemma_fundamental_div_mod(num, den);
    lemma_mod_pos_bound(num, den);
    let q = num / den;
    let r = num % den;
    assert(q <= c ==> num < c * den + den) by (nonlinear_arith)
        requires
            num == den * q + r,
            0 <= r < den,
    ;
    assert(c < q ==> num >= c * den + den) by (nonlinear_arith)
        requires
            num == den * q + r,
            0 <= r < den,
    ;
}

pub(crate) proof fn lemma_div_below_side(i: int, n: int)
    requires
        0 <= i < n * n,
        n > 0,
    ensures
        0 <= i / n < n,
{
    lemma_fundamental_div_mod(i, n);
    lemma_mod_pos_bound(i, n);
    let q = i / n;
    let r = i % n;
    assert(0 <= q < n) by (nonlinear_arith)
        requires
            i == n * q + r,
            0 <= r < n,
            0 <= i < n * n,
    ;
}

/// Flattened index of `(row, col)` in a square buffer of side `n`.
pub(crate) proof fn lemma_index(row: int, col: int, n: int)
    requires
        0 <= row < n,
        0 <= col < n,
    ensures
        0 <= row * n + col < n * n,
        (row * n + col) / n == row,
        (row * n + col) % n == col,
{
    lemma_fundamental_div_mod_converse(row * n + col, n, row, col);
    lemma_mul_inequality(row + 1, n, n);
    assert((row + 1) * n == row * n + n) by (nonlinear_arith);
    assert(row * n >= 0) by (nonlinear_arith)
        requires
            row >= 0,
            n > 0,
    ;
}

/// Clipped column bounds of the crossing `x` of edge `a -> b` with the scan
/// line of `row`: `min(n, max(0, floor(x)))` and `min(n, max(0, ceil(x)))`.
fn edge_bounds(a: Point, b: Point, row: usize, cell: i64, n: usize) -> (r: (usize, usize))
    requires
        a.valid(),
        b.valid(),
        a.y < b.y,
        row <= n <= 4 * MAX_GRID,
        1 <= cell <= MAX_CELL,
    ensures
        r.0 <= n,
        r.1 <= n,
        forall|c: int|
            0 <= c < n ==> (r.0 <= c <==> #[trigger] crosses_before(
                a,
                b,
                row as int,
                c,
                cell as int,
            )),
        forall|c: int|
            0 <= c < n ==> (c < r.1 <==> #[trigger] crosses_after(a, b, row as int, c, cell as int)),
{
    let dy: i128 = b.y as i128 - a.y as i128;
    let dx: i128 = b.x as i128 - a.x as i128;
    let ax: i128 = a.x as i128;
    assert(0 <= row * cell <= 0x1_0000_0000) by (nonlinear_arith)
        requires
            0 <= row <= 4096,
            1 <= cell <= 0x10_0000,
    ;
    let rc: i128 = row as i128 * cell as i128;
    let span: i128 = rc - 4 * (a.y as i128);
    assert(-0x4000_0000_0000_0000 <= 4 * ax * dy <= 0x4000_0000_0000_0000) by (nonlinear_arith)
        requires
            -0x1000_0000 <= ax <= 0x1000_0000,
            0 < dy <= 0x2000_0000,
    ;
    assert(-0x10_0000_0000_0000_0000 <= dx * span <= 0x10_0000_0000_0000_0000) by (nonlinear_arith)
        requires
            -0x2000_0000 <= dx <= 0x2000_0000,
            -0x2_0000_0000 <= span <= 0x2_0000_0000,
    ;
    let num: i128 = 4 * ax * dy + dx * span;
    assert(0 < cell * dy <= 0x2_0000_0000_0000) by (nonlinear_arith)
        requires
            1 <= cell <= 0x10_0000,
            0 < dy <= 0x2000_0000,
    ;
    let den: i128 = cell as i128 * dy;
    assert(num == edge_num(a, b, row as int, cell as int));
    assert(den == edge_den(a, b, cell as int));
    let lo: usize;
    let hi: usize;
    if num < 0 {
        lo = 0;
        hi = 0;
        assert forall|c: int| 0 <= c < n implies #[trigger] crosses_before(a, b, row as int, c, cell as int)
            && !crosses_after(a, b, row as int, c, cell as int) by {
            assert((c + 1) * den > 0 && c * den >= 0) by (nonlinear_arith)
                requires
                    c >= 0,
                    den > 0,
            ;
        }
    } else {
        let q: u128 = num as u128 / den as u128;
        let m: u128 = num as u128 + den as u128 - 1;
        let q2: u128 = m / den as u128;
        lo = if q < n as u128 { q as usize } else { n };
        hi = if q2 < n as u128 { q2 as usize } else { n };
        assert forall|c: int| 0 <= c < n implies (lo <= c <==> #[trigger] crosses_before(
            a,
            b,
            row as int,
            c,
            cell as int,
        )) by {
            lemma_floor_div(num as int, den as int, c);
            assert((c + 1) * den == c * den + den) by (nonlinear_arith);
        }
        assert forall|c: int| 0 <= c < n implies (c < hi <==> #[trigger] crosses_after(
            a,
            b,
            row as int,
            c,
            cell as int,
        )) by {
            lemma_floor_div(m as int, den as int, c);
        }
    }
    (lo, hi)
}

/// Marks every sub-cell of the half-triangle between the long edge
/// `la -> lb` and the short edge `sa -> sb`. Rows whose scan line falls
/// outside the grid, and columns outside it, are clipped.
pub fn fill_tri_half(
    cells: &mut Vec<bool>,
    n: usize,
    cell: i64,
    la: Point,
    lb: Point,
    sa: Point,
    sb: Point,
)
    requires
        old(cells)@.len() == n * n,
        1 <= n <= 4 * MAX_GRID,
        1 <= cell <= MAX_CELL,
        la.valid(),
        lb.valid(),
        sa.valid(),
        sb.valid(),
        la.y <= sa.y,
        sb.y <= lb.y,
    ensures
        final(cells)@.len() == n * n,
        forall|i: int|
            0 <= i < n * n ==> #[trigger] final(cells)@[i] == (old(cells)@[i] || half_covers(
                la,
                lb,
                sa,
                sb,
                i / (n as int),
                i % (n as int),
                cell as int,
            )),
{
    let ghost pre = cells@;
    if sa.y >= sb.y {
        assert forall|i: int| 0 <= i < n * n implies !#[trigger] half_covers(
            la,
            lb,
            sa,
            sb,
            i / (n as int),
            i % (n as int),
            cell as int,
        ) by {}
        return;
    }
    assert(n * n <= 0x100_0000) by (nonlinear_arith)
        requires
            1 <= n <= 4096,
    ;
    let mut row: usize = 0;
    while row < n
        invariant
            cells@.len() == n * n,
            n * n <= 0x100_0000,
            1 <= n <= 4 * MAX_GRID,
            1 <= cell <= MAX_CELL,
            la.valid(),
            lb.valid(),
            sa.valid(),
            sb.valid(),
            la.y <= sa.y < sb.y <= lb.y,
            row <= n,
            forall|i: int|
                0 <= i < n * n ==> #[trigger] cells@[i] == if i / (n as int) < row {
                    pre[i] || half_covers(la, lb, sa, sb, i / (n as int), i % (n as int), cell as int)
                } else {
                    pre[i]
                },
        decreases n - row,
    {
        assert(0 <= row * cell <= 0x1_0000_0000) by (nonlinear_arith)
            requires
                0 <= row <= 4096,
                1 <= cell <= 0x10_0000,
        ;
        let rc: i128 = row as i128 * cell as i128;
        let ghost before = cells@;
        if 4 * (sa.y as i128) <= rc && rc < 4 * (sb.y as i128) {
            let (l1, h1) = edge_bounds(la, lb, row, cell, n);
            let (l2, h2) = edge_bounds(sa, sb, row, cell, n);
            let lo = if l1 < l2 {
                l1
            } else {
                l2
            };
            let hi = if h1 > h2 {
                h1
            } else {
                h2
            };
            let mut col: usize = lo;
            while col < hi
                invariant
                    cells@.len() == n * n,
                    n * n <= 0x100_0000,
                    lo <= col,
                    col <= hi || col == lo,
                    col <= n,
                    hi <= n,
                    row < n,
                    forall|i: int|
                        0 <= i < n * n ==> #[trigger] cells@[i] == if i / (n as int) == row && lo
                            <= i % (n as int) < col {
                            true
                        } else {
                            before[i]
                        },
                decreases hi - col,
            {
                proof {
                    lemma_index(row as int, col as int, n as int);
                }
                let ghost prev = cells@;
                cells.set(row * n + col, true);
                proof {
                    assert forall|i: int| 0 <= i < n * n implies #[trigger] cells@[i] == if i / (
                    n as int) == row && lo <= i % (n as int) < col + 1 {
                        true
                    } else {
                        before[i]
                    } by {
                        lemma_fundamental_div_mod(i, n as int);
                        assert((n as int) * (row as int) == (row as int) * (n as int)) by (nonlinear_arith);
                        if i != row * n + col {
                            assert(cells@[i] == prev[i]);
                        }
                    }
                }
                col = col + 1;
            }
            assert forall|i: int| 0 <= i < n * n && i / (n as int) == row implies #[trigger] cells@[i]
                == (before[i] || half_covers(
                la,
                lb,
                sa,
                sb,
                i / (n as int),
                i % (n as int),
                cell as int,
            )) by {
                lemma_mod_pos_bound(i, n as int);
                let c = i % (n as int);
                assert(crosses_before(la, lb, row as int, c, cell as int) <==> l1 <= c);
                assert(crosses_before(sa, sb, row as int, c, cell as int) <==> l2 <= c);
                assert(crosses_after(la, lb, row as int, c, cell as int) <==> c < h1);
                assert(crosses_after(sa, sb, row as int, c, cell as int) <==> c < h2);
            }
        } else {
            assert forall|i: int| 0 <= i < n * n && i / (n as int) == row implies !#[trigger] half_covers(
                la,
                lb,
                sa,
                sb,
                i / (n as int),
                i % (n as int),
                cell as int,
            ) by {}
        }
        row = row + 1;
    }
    assert forall|i: int| 0 <= i < n * n implies #[trigger] cells@[i] == (pre[i] || half_covers(
        la,
        lb,
        sa,
        sb,
        i / (n as int),
        i % (n as int),
        cell as int,
    )) by {
        lemma_div_below_side(i, n as int);
    }
}

/// The supersampled hit buffer of `tris` over a grid of `size` cells of side
/// `cell`: sub-cell `(row, col)` sits at index `row * n + col`, `n = 4 * size`.
pub open spec fn raster_seq(tris: Seq<Triangle>, size: int, cell: int) -> Seq<bool> {
    let n = 4 * size;
    Seq::new((n * n) as nat, |i: int| covered(tris, i / n, i % n, cell))
}

pub open spec fn hit(b: bool) -> int {
    if b {
        1
    } else {
        0
    }
}

/// Hits among the first `k` sub-cells of sub-row `row`, from column `col0`,
/// in a buffer of side `w`.
pub open spec fn row_hits(ss: Seq<bool>, w: int, row: int, col0: int, k: int) -> int
    decreases k,
{
    if k <= 0 {
        0
    } else {
        row_hits(ss, w, row, col0, k - 1) + hit(ss[row * w + col0 + k - 1])
    }
}

/// Hits in the first `j` sub-rows of the block whose corner is `(row0, col0)`.
pub open spec fn block_rows_hits(ss: Seq<bool>, w: int, row0: int, col0: int, j: int) -> int
    decreases j,
{
    if j <= 0 {
        0
    } else {
        block_rows_hits(ss, w, row0, col0, j - 1) + row_hits(ss, w, row0 + j - 1, col0, 4)
    }
}

/// Hit sub-cells of grid cell `(y, x)` in the supersampled buffer `ss`.
pub open spec fn block_hits(ss: Seq<bool>, size: int, y: int, x: int) -> int {
    block_rows_hits(ss, 4 * size, 4 * y, 4 * x, 4)
}

fn sort_vertices(t: Triangle) -> (r: (Point, Point, Point))
    ensures
        r == sorted_vertices(t),
{
    if t.a.y <= t.b.y {
        if t.b.y <= t.c.y {
            (t.a, t.b, t.c)
        } else if t.a.y <= t.c.y {
            (t.a, t.c, t.b)
        } else {
            (t.c, t.a, t.b)
        }
    } else {
        if t.a.y <= t.c.y {
            (t.b, t.a, t.c)
        } else if t.b.y <= t.c.y {
            (t.b, t.c, t.a)
        } else {
            (t.c, t.b, t.a)
        }
    }
}

/// Rasterizes `tris` at four sub-cells per cell side: a sub-cell is hit when
/// any triangle marks it.
pub fn rasterize(tris: &Vec<Triangle>, size: usize, cell: i64) -> (r: Vec<bool>)
    requires
        1 <= size <= MAX_GRID,
        1 <= cell <= MAX_CELL,
        forall|i: int| 0 <= i < tris@.len() ==> (#[trigger] tris@[i]).valid(),
    ensures
        r@ == raster_seq(tris@, size as int, cell as int),
{
    let n: usize = size * SUPERSAMPLE;
    assert(n * n <= 0x100_0000) by (nonlinear_arith)
        requires
            1 <= n <= 4096,
    ;
    let total: usize = n * n;
    let mut cells: Vec<bool> = Vec::new();
    while cells.len() < total
        invariant
            cells@.len() <= total,
            forall|i: int| 0 <= i < cells@.len() ==> !#[trigger] cells@[i],
        decreases total - cells@.len(),
    {
        cells.push(false);
    }
    let mut k: usize = 0;
    while k < tris.len()
        invariant
            n == 4 * size,
            1 <= n <= 4 * MAX_GRID,
            1 <= cell <= MAX_CELL,
            total == n * n,
            k <= tris@.len(),
            forall|i: int| 0 <= i < tris@.len() ==> (#[trigger] tris@[i]).valid(),
            cells@.len() == n * n,
            forall|i: int|
                0 <= i < n * n ==> #[trigger] cells@[i] == exists|j: int|
                    0 <= j < k && #[trigger] tri_covers(
                        tris@[j],
                        i / (n as int),
                        i % (n as int),
                        cell as int,
                    ),
        decreases tris@.len() - k,
    {
        let t = tris[k];
        let (v0, v1, v2) = sort_vertices(t);
        let ghost before = cells@;
        fill_tri_half(&mut cells, n, cell, v0, v2, v0, v1);
        fill_tri_half(&mut cells, n, cell, v0, v2, v1, v2);
        assert forall|i: int| 0 <= i < n * n implies #[trigger] cells@[i] == exists|j: int|
            0 <= j < k + 1 && #[trigger] tri_covers(
                tris@[j],
                i / (n as int),
                i % (n as int),
                cell as int,
            ) by {
            if tri_covers(tris@[k as int], i / (n as int), i % (n as int), cell as int) {
                assert(0 <= k < k + 1);
            }
        }
        k = k + 1;
    }
    assert(cells@ =~= raster_seq(tris@, size as int, cell as int));
    cells
}

/// Counts, for each grid cell, the hit sub-cells of its 4 x 4 block. The
/// cell's coverage is that count over `COVERAGE_DEN`, so it lies in [0, 1].
pub fn downsample(ss: &Vec<bool>, size: usize) -> (r: Vec<u8>)
    requires
        1 <= size <= MAX_GRID,
        ss@.len() == (4 * size) * (4 * size),
    ensures
        r@.len() == size * size,
        forall|i: int|
            0 <= i < size * size ==> #[trigger] r@[i] as int == block_hits(
                ss@,
                size as int,
                i / (size as int),
                i % (size as int),
            ) && r@[i] <= COVERAGE_DEN,
{
    let w: usize = size * SUPERSAMPLE;
    assert(size * size <= w * w <= 0x100_0000) by (nonlinear_arith)
        requires
            1 <= size <= 1024,
            w == 4 * size,
    ;
    let mut out: Vec<u8> = Vec::new();
    let mut y: usize = 0;
    while y < size
        invariant
            w == 4 * size,
            1 <= size <= MAX_GRID,
            ss@.len() == w * w,
            w * w <= 0x100_0000,
            y <= size,
            out@.len() == y * size,
            forall|i: int|
                0 <= i < out@.len() ==> #[trigger] out@[i] as int == block_hits(
                    ss@,
                    size as int,
                    i / (size as int),
                    i % (size as int),
                ) && out@[i] <= COVERAGE_DEN,
        decreases size - y,
    {
        let mut x: usize = 0;
        while x < size
            invariant
                w == 4 * size,
                1 <= size <= MAX_GRID,
                ss@.len() == w * w,
                w * w <= 0x100_0000,
                y < size,
                x <= size,
                out@.len() == y * size + x,
                forall|i: int|
                    0 <= i < out@.len() ==> #[trigger] out@[i] as int == block_hits(
                        ss@,
                        size as int,
                        i / (size as int),
                        i % (size as int),
                    ) && out@[i] <= COVERAGE_DEN,
            decreases size - x,
        {
            let mut value: u8 = 0;
            let mut sy: usize = 0;
            while sy < SUPERSAMPLE
                invariant
                    w == 4 * size,
                    ss@.len() == w * w,
                    w * w <= 0x100_0000,
                    y < size,
                    x < size,
                    sy <= 4,
                    value as int == block_rows_hits(ss@, w as int, 4 * y, 4 * x, sy as int),
                    value <= 4 * sy,
                decreases 4 - sy,
            {
                let mut row_value: u8 = 0;
                let mut sx: usize = 0;
                while sx < SUPERSAMPLE
                    invariant
                        w == 4 * size,
                        ss@.len() == w * w,
                        w * w <= 0x100_0000,
                        y < size,
                        x < size,
                        sy < 4,
                        sx <= 4,
                        row_value as int == row_hits(ss@, w as int, 4 * y + sy, 4 * x, sx as int),
                        row_value <= sx,
                    decreases 4 - sx,
                {
                    proof {
                        lemma_index(4 * y + sy, 4 * x + sx, w as int);
                    }
                    let idx: usize = (y * SUPERSAMPLE + sy) * w + x * SUPERSAMPLE + sx;
                    if ss[idx] {
                        row_value = row_value + 1;
                    }
                    sx = sx + 1;
                }
                value = value + row_value;
                sy = sy + 1;
            }
            proof {
                lemma_index(y as int, x as int, size as int);
            }
            out.push(value);
            x = x + 1;
        }
        assert((y + 1) * size == y * size + size) by (nonlinear_arith);
        y = y + 1;
    }
    out
}

/// Coverage counts of the region `tris` over a `size x size` grid: cell
/// `(y, x)` at index `y * size + x` holds how many of its 16 sub-cells are hit.
pub fn visible_cells(tris: &Vec<Triangle>, size: usize, cell: i64) -> (r: Vec<u8>)
    requires
        1 <= size <= MAX_GRID,
        1 <= cell <= MAX_CELL,
        forall|i: int| 0 <= i < tris@.len() ==> (#[trigger] tris@[i]).valid(),
    ensures
        r@.len() == size * size,
        forall|i: int|
            0 <= i < size * size ==> #[trigger] r@[i] as int == block_hits(
                raster_seq(tris@, size as int, cell as int),
                size as int,
                i / (size as int),
                i % (size as int),
            ) && r@[i] <= COVERAGE_DEN,
{
    let ss = rasterize(tris, size, cell);
    downsample(&ss, size)
}

/// A triangle of zero height marks no sub-cell, so adding it to a set of
/// triangles leaves the hit buffer, and with it every coverage, unchanged.
pub proof fn lemma_flat_triangle_adds_nothing(tris: Seq<Triangle>, t: Triangle, size: int, cell: int)
    requires
        t.a.y == t.b.y,
        t.b.y == t.c.y,
    ensures
        raster_seq(tris.push(t), size, cell) == raster_seq(tris, size, cell),
{
    let grown = tris.push(t);
    assert forall|row: int, col: int| #[trigger]
        covered(grown, row, col, cell) == covered(tris, row, col, cell) by {
        assert(!tri_covers(t, row, col, cell));
        if covered(grown, row, col, cell) {
            let i = choose|i: int| 0 <= i < grown.len() && #[trigger] tri_covers(grown[i], row, col, cell);
            assert(i < tris.len());
            assert(grown[i] == tris[i]);
        }
        if covered(tris, row, col, cell) {
            let i = choose|i: int| 0 <= i < tris.len() && #[trigger] tri_covers(tris[i], row, col, cell);
            assert(grown[i] == tris[i]);
        }
    }
    assert(raster_seq(grown, size, cell) =~= raster_seq(tris, size, cell));
}

/// Twice the signed area of the triangle `(p, q, m)`, with all coordinates
/// scaled by four; `m` is given already scaled.
pub open spec fn orient(p: Point, q: Point, mx4: int, my4: int) -> int {
    (4 * q.x - 4 * p.x) * (my4 - 4 * p.y) - (4 * q.y - 4 * p.y) * (mx4 - 4 * p.x)
}

/// The point `(mx4 / 4, my4 / 4)` lies strictly inside `t`: it is strictly
/// on the same side of all three edges.
pub open spec fn strictly_inside(t: Triangle, mx4: int, my4: int) -> bool {
    let o1 = orient(t.a, t.b, mx4, my4);
    let o2 = orient(t.b, t.c, mx4, my4);
    let o3 = orient(t.c, t.a, mx4, my4);
    (o1 > 0 && o2 > 0 && o3 > 0) || (o1 < 0 && o2 < 0 && o3 < 0)
}

proof fn lemma_orient_swap(p: Point, q: Point, mx4: int, my4: int)
    ensures
        orient(q, p, mx4, my4) == -orient(p, q, mx4, my4),
{
    assert((4 * p.x - 4 * q.x) * (my4 - 4 * q.y) - (4 * p.y - 4 * q.y) * (mx4 - 4 * q.x) == -((4
        * q.x - 4 * p.x) * (my4 - 4 * p.y) - (4 * q.y - 4 * p.y) * (mx4 - 4 * p.x)))
        by (nonlinear_arith);
}

/// Where the scan line through `my4` meets edge `a -> b`, the sign of the
/// orientation of `m` tells on which side of column `c` the crossing lies.
proof fn lemma_orient_crossing(a: Point, b: Point, row: int, c: int, cell: int)
    ensures
        orient(a, b, c * cell, row * cell) == 4 * (edge_num(a, b, row, cell) - c * edge_den(
            a,
            b,
            cell,
        )),
{
    assert((4 * b.x - 4 * a.x) * (row * cell - 4 * a.y) - (4 * b.y - 4 * a.y) * (c * cell - 4
        * a.x) == 4 * ((4 * a.x * (b.y - a.y) + (b.x - a.x) * (row * cell - 4 * a.y)) - c * (cell
        * (b.y - a.y)))) by (nonlinear_arith);
}

proof fn lemma_barycentric_y(v0: Point, v1: Point, v2: Point, mx4: int, my4: int)
    ensures
        ({
            let l0 = orient(v1, v2, mx4, my4);
            let l1 = orient(v2, v0, mx4, my4);
            let l2 = orient(v0, v1, mx4, my4);
            &&& l0 * (4 * v0.y) + l1 * (4 * v1.y) + l2 * (4 * v2.y) == (l0 + l1 + l2) * my4
            &&& l0 + l1 + l2 == orient(v0, v1, 4 * v2.x, 4 * v2.y)
        }),
{
    let (dx0, dy0) = (4 * v0.x - mx4, 4 * v0.y - my4);
    let (dx1, dy1) = (4 * v1.x - mx4, 4 * v1.y - my4);
    let (dx2, dy2) = (4 * v2.x - mx4, 4 * v2.y - my4);
    let l0 = orient(v1, v2, mx4, my4);
    let l1 = orient(v2, v0, mx4, my4);
    let l2 = orient(v0, v1, mx4, my4);
    assert(l0 == dx1 * dy2 - dx2 * dy1) by (nonlinear_arith)
        requires
            l0 == (4 * v2.x - 4 * v1.x) * (my4 - 4 * v1.y) - (4 * v2.y - 4 * v1.y) * (mx4 - 4
                * v1.x),
            dx1 == 4 * v1.x - mx4,
            dy1 == 4 * v1.y - my4,
            dx2 == 4 * v2.x - mx4,
            dy2 == 4 * v2.y - my4,
    ;
    assert(l1 == dx2 * dy0 - dx0 * dy2) by (nonlinear_arith)
        requires
            l1 == (4 * v0.x - 4 * v2.x) * (my4 - 4 * v2.y) - (4 * v0.y - 4 * v2.y) * (mx4 - 4
                * v2.x),
            dx0 == 4 * v0.x - mx4,
            dy0 == 4 * v0.y - my4,
            dx2 == 4 * v2.x - mx4,
            dy2 == 4 * v2.y - my4,
    ;
    assert(l2 == dx0 * dy1 - dx1 * dy0) by (nonlinear_arith)
        requires
            l2 == (4 * v1.x - 4 * v0.x) * (my4 - 4 * v0.y) - (4 * v1.y - 4 * v0.y) * (mx4 - 4
                * v0.x),
            dx0 == 4 * v0.x - mx4,
            dy0 == 4 * v0.y - my4,
            dx1 == 4 * v1.x - mx4,
            dy1 == 4 * v1.y - my4,
    ;
    assert(l0 * dy0 + l1 * dy1 + l2 * dy2 == 0) by (nonlinear_arith)
        requires
            l0 == dx1 * dy2 - dx2 * dy1,
            l1 == dx2 * dy0 - dx0 * dy2,
            l2 == dx0 * dy1 - dx1 * dy0,
    ;
    assert(l0 * (4 * v0.y) + l1 * (4 * v1.y) + l2 * (4 * v2.y) - (l0 + l1 + l2) * my4 == l0 * dy0
        + l1 * dy1 + l2 * dy2) by (nonlinear_arith)
        requires
            dy0 == 4 * v0.y - my4,
            dy1 == 4 * v1.y - my4,
            dy2 == 4 * v2.y - my4,
    ;
    let o = orient(v0, v1, 4 * v2.x, 4 * v2.y);
    assert(o == dx1 * dy2 - dx2 * dy1 + dx2 * dy0 - dx0 * dy2 + dx0 * dy1 - dx1 * dy0) by (nonlinear_arith)
        requires
            o == (4 * v1.x - 4 * v0.x) * (4 * v2.y - 4 * v0.y) - (4 * v1.y - 4 * v0.y) * (4
                * v2.x - 4 * v0.x),
            dx0 == 4 * v0.x - mx4,
            dy0 == 4 * v0.y - my4,
            dx1 == 4 * v1.x - mx4,
            dy1 == 4 * v1.y - my4,
            dx2 == 4 * v2.x - mx4,
            dy2 == 4 * v2.y - my4,
    ;
}

/// A point strictly inside a triangle lies strictly between its lowest and
/// its highest vertex.
proof fn lemma_inside_height(v0: Point, v1: Point, v2: Point, mx4: int, my4: int)
    requires
        v0.y <= v1.y <= v2.y,
        ({
            let l0 = orient(v1, v2, mx4, my4);
            let l1 = orient(v2, v0, mx4, my4);
            let l2 = orient(v0, v1, mx4, my4);
            (l0 > 0 && l1 > 0 && l2 > 0) || (l0 < 0 && l1 < 0 && l2 < 0)
        }),
    ensures
        4 * v0.y < my4 < 4 * v2.y,
{
    lemma_barycentric_y(v0, v1, v2, mx4, my4);
    let l0 = orient(v1, v2, mx4, my4);
    let l1 = orient(v2, v0, mx4, my4);
    let l2 = orient(v0, v1, mx4, my4);
    let (y0, y1, y2) = (4 * v0.y, 4 * v1.y, 4 * v2.y);
    if v0.y == v2.y {
        let o = orient(v0, v1, 4 * v2.x, 4 * v2.y);
        assert(o == 0) by (nonlinear_arith)
            requires
                o == (4 * v1.x - 4 * v0.x) * (4 * v2.y - 4 * v0.y) - (4 * v1.y - 4 * v0.y) * (4
                    * v2.x - 4 * v0.x),
                v0.y == v1.y,
                v1.y == v2.y,
        ;
    }
    if l0 > 0 {
        assert(y0 < my4 < y2) by (nonlinear_arith)
            requires
                l0 > 0,
                l1 > 0,
                l2 > 0,
                y0 <= y1 <= y2,
                l0 * y0 + l1 * y1 + l2 * y2 == (l0 + l1 + l2) * my4,
                y0 < y2,
        ;
    } else {
        assert(y0 < my4 < y2) by (nonlinear_arith)
            requires
                l0 < 0,
                l1 < 0,
                l2 < 0,
                y0 <= y1 <= y2,
                l0 * y0 + l1 * y1 + l2 * y2 == (l0 + l1 + l2) * my4,
                y0 < y2,
        ;
    }
}

proof fn lemma_inside_sorted(t: Triangle, mx4: int, my4: int)
    requires
        strictly_inside(t, mx4, my4),
    ensures
        ({
            let (v0, v1, v2) = sorted_vertices(t);
            let l0 = orient(v1, v2, mx4, my4);
            let l1 = orient(v2, v0, mx4, my4);
            let l2 = orient(v0, v1, mx4, my4);
            (l0 > 0 && l1 > 0 && l2 > 0) || (l0 < 0 && l1 < 0 && l2 < 0)
        }),
{
    lemma_orient_swap(t.a, t.b, mx4, my4);
    lemma_orient_swap(t.b, t.c, mx4, my4);
    lemma_orient_swap(t.c, t.a, mx4, my4);
}

/// A sub-cell whose scan point `(col * cell / 4, row * cell / 4)` lies
/// strictly inside `t` is marked by `t`.
pub proof fn lemma_inside_point_is_marked(t: Triangle, row: int, col: int, cell: int)
    requires
        cell >= 1,
        strictly_inside(t, col * cell, row * cell),
    ensures
        tri_covers(t, row, col, cell),
{
    let (v0, v1, v2) = sorted_vertices(t);
    let (mx4, my4) = (col * cell, row * cell);
    lemma_inside_sorted(t, mx4, my4);
    lemma_inside_height(v0, v1, v2, mx4, my4);
    lemma_orient_swap(v2, v0, mx4, my4);
    lemma_orient_crossing(v0, v2, row, col, cell);
    lemma_orient_crossing(v0, v1, row, col, cell);
    lemma_orient_crossing(v1, v2, row, col, cell);
    assert(edge_den(v0, v2, cell) >= 0 && edge_den(v0, v1, cell) >= 0 && edge_den(v1, v2, cell)
        >= 0) by (nonlinear_arith)
        requires
            cell >= 1,
            v0.y <= v1.y <= v2.y,
    ;
    assert forall|a: Point, b: Point| edge_den(a, b, cell) >= 0 implies #[trigger] edge_num(
        a,
        b,
        row,
        cell,
    ) < col * edge_den(a, b, cell) ==> crosses_before(a, b, row, col, cell) by {
        assert((col + 1) * edge_den(a, b, cell) == col * edge_den(a, b, cell) + edge_den(a, b, cell))
            by (nonlinear_arith);
    }
}

proof fn lemma_row_hits_nonneg(ss: Seq<bool>, w: int, row: int, col0: int, k: int)
    ensures
        row_hits(ss, w, row, col0, k) >= 0,
    decreases k,
{
    if k > 0 {
        lemma_row_hits_nonneg(ss, w, row, col0, k - 1);
    }
}

proof fn lemma_row_hits_counts(ss: Seq<bool>, w: int, row: int, col0: int, k: int, j: int)
    requires
        0 <= j < k,
        ss[row * w + col0 + j],
    ensures
        row_hits(ss, w, row, col0, k) >= 1,
    decreases k,
{
    if j < k - 1 {
        lemma_row_hits_counts(ss, w, row, col0, k - 1, j);
    } else {
        lemma_row_hits_nonneg(ss, w, row, col0, k - 1);
    }
}

proof fn lemma_block_rows_hits(ss: Seq<bool>, w: int, row0: int, col0: int, j: int, r: int)
    requires
        0 <= r < j,
        row_hits(ss, w, row0 + r, col0, 4) >= 1,
    ensures
        block_rows_hits(ss, w, row0, col0, j) >= 1,
    decreases j,
{
    if r < j - 1 {
        lemma_block_rows_hits(ss, w, row0, col0, j - 1, r);
        lemma_row_hits_nonneg(ss, w, row0 + j - 1, col0, 4);
    } else {
        lemma_block_rows_nonneg(ss, w, row0, col0, j - 1);
    }
}

proof fn lemma_block_rows_nonneg(ss: Seq<bool>, w: int, row0: int, col0: int, j: int)
    ensures
        block_rows_hits(ss, w, row0, col0, j) >= 0,
    decreases j,
{
    if j > 0 {
        lemma_block_rows_nonneg(ss, w, row0, col0, j - 1);
        lemma_row_hits_nonneg(ss, w, row0 + j - 1, col0, 4);
    }
}

/// Every grid cell whose center lies strictly inside one of the triangles
/// gets a positive coverage after supersampling and downsampling.
pub proof fn lemma_center_inside_is_covered(
    tris: Seq<Triangle>,
    k: int,
    size: int,
    cell: int,
    x: int,
    y: int,
)
    requires
        0 <= k < tris.len(),
        0 <= x < size,
        0 <= y < size,
        cell >= 1,
        strictly_inside(tris[k], (4 * x + 2) * cell, (4 * y + 2) * cell),
    ensures
        block_hits(raster_seq(tris, size, cell), size, y, x) > 0,
{
    let n = 4 * size;
    let (row, col) = (4 * y + 2, 4 * x + 2);
    lemma_inside_point_is_marked(tris[k], row, col, cell);
    assert(covered(tris, row, col, cell));
    lemma_index(row, col, n);
    let ss = raster_seq(tris, size, cell);
    assert(ss[row * n + col]);
    assert(row * n + col == (4 * y + 2) * n + 4 * x + 2);
    lemma_row_hits_counts(ss, n, 4 * y + 2, 4 * x, 4, 2);
    lemma_block_rows_hits(ss, n, 4 * y, 4 * x, 4, 2);
}

} // verus!
