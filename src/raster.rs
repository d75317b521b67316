//! Rasterization of primitives into cells.
//!
//! A line becomes a staircase of one-cell-thick runs (a run-length form of
//! Bresenham's algorithm); an arc becomes unit cells at its sample points.
use vstd::prelude::*;
use crate::cell::Cell;

verus! {

pub open spec fn abs_int(v: int) -> int {
    if v < 0 { -v } else { v }
}

/// The endpoints of a segment reordered so that the first one is the
/// leftmost: `(sx, sy, ex, ey)` with `sx <= ex`.
pub open spec fn seg_ends(x1: int, y1: int, x2: int, y2: int) -> (int, int, int, int) {
    if x1 > x2 { (x2, y2, x1, y1) } else { (x1, y1, x2, y2) }
}

pub open spec fn seg_dx(g: (int, int, int, int)) -> int {
    g.2 - g.0
}

pub open spec fn seg_dy(g: (int, int, int, int)) -> int {
    abs_int(g.3 - g.1)
}

/// The segment advances more along y than along x.
pub open spec fn seg_steep(g: (int, int, int, int)) -> bool {
    seg_dx(g) < seg_dy(g)
}

/// Walking from the left end, y decreases (the segment rises on screen).
pub open spec fn seg_rises(g: (int, int, int, int)) -> bool {
    g.1 > g.3
}

pub open spec fn seg_major(g: (int, int, int, int)) -> int {
    if seg_steep(g) { seg_dy(g) } else { seg_dx(g) }
}

pub open spec fn seg_minor(g: (int, int, int, int)) -> int {
    if seg_steep(g) { seg_dx(g) } else { seg_dy(g) }
}

/// `m` is the minor-axis offset nearest to the ideal `k * minor / major`
/// at major-axis offset `k`, halves rounding down.
pub open spec fn nearest_step(k: int, m: int, major: int, minor: int) -> bool {
    if major == 0 {
        m == 0
    } else {
        -major < 2 * (k * minor - major * m) <= major
    }
}

/// Cell `c` is the run whose minor-axis offset is `j`: one cell thick across
/// the major axis and placed at offset `j` along the minor axis.
pub open spec fn run_shape(g: (int, int, int, int), c: Cell, j: int) -> bool {
    if seg_steep(g) {
        c.2 == 1 && c.0 == g.0 + j && c.3 >= 1
    } else {
        c.3 == 1 && c.1 == (if seg_rises(g) { g.1 - j } else { g.1 + j }) && c.2 >= 1
    }
}

/// Offset along the major axis, from the left end, of the first pixel of run `c`.
pub open spec fn run_start(g: (int, int, int, int), c: Cell) -> int {
    if !seg_steep(g) {
        c.0 - g.0
    } else if !seg_rises(g) {
        c.1 - g.1
    } else {
        g.1 - (c.1 + c.3 - 1)
    }
}

/// Number of pixels of run `c`.
pub open spec fn run_len(g: (int, int, int, int), c: Cell) -> int {
    if seg_steep(g) { c.3 as int } else { c.2 as int }
}

/// Run `j` of `cells` is well placed: its shape, where it starts (right
/// after run `j - 1`, or at the left end), and that every pixel of it lies at
/// the Bresenham offset `j` across the major axis.
pub open spec fn run_ok(g: (int, int, int, int), cells: Seq<Cell>, j: int) -> bool {
    let c = cells[j];
    &&& run_shape(g, c, j)
    &&& (j == 0 ==> run_start(g, c) == 0)
    &&& (j > 0 ==> run_start(g, c) == run_start(g, cells[j - 1]) + run_len(g, cells[j - 1]))
    &&& forall|k: int|
        run_start(g, c) <= k < run_start(g, c) + run_len(g, c) ==> #[trigger] nearest_step(
            k,
            j,
            seg_major(g),
            seg_minor(g),
        )
}

/// `cells` is the rasterization of the segment from `(x1, y1)` to `(x2, y2)`:
/// one run per minor-axis offset `0..=minor`, consecutive along the major
/// axis, the last one ending at the right end.
pub open spec fn line_raster(cells: Seq<Cell>, x1: int, y1: int, x2: int, y2: int) -> bool {
    let g = seg_ends(x1, y1, x2, y2);
    &&& cells.len() == seg_minor(g) + 1
    &&& forall|j: int| 0 <= j < cells.len() ==> #[trigger] run_ok(g, cells, j)
    &&& run_start(g, cells.last()) + run_len(g, cells.last()) == seg_major(g) + 1
}

/// The extent of a segment fits the cell fields.
pub open spec fn line_fits(x1: int, y1: int, x2: int, y2: int) -> bool {
    abs_int(x2 - x1) < i32::MAX && abs_int(y2 - y1) < i32::MAX
}

/// Pixel `(px, py)` lies inside cell `c`.
pub open spec fn covers(c: Cell, px: int, py: int) -> bool {
    &&& c.0 <= px < c.0 + c.2
    &&& c.1 <= py < c.1 + c.3
}

/// Total number of pixels of `cells`, counted with repetition.
pub open spec fn cells_area(cells: Seq<Cell>) -> int
    decreases cells.len(),
{
    if cells.len() == 0 {
        0
    } else {
        cells_area(cells.drop_last()) + cells.last().2 * cells.last().3
    }
}

proof fn lemma_area_prefix(g: (int, int, int, int), cells: Seq<Cell>, n: int)
    requires
        0 <= n <= cells.len(),
        forall|j: int| 0 <= j < cells.len() ==> #[trigger] run_ok(g, cells, j),
    ensures
        n == 0 ==> cells_area(cells.subrange(0, n)) == 0,
        n > 0 ==> cells_area(cells.subrange(0, n)) == run_start(g, cells[n - 1]) + run_len(g, cells[n - 1]),
    decreases n,
{
    if n > 0 {
        lemma_area_prefix(g, cells, n - 1);
        let s = cells.subrange(0, n);
        assert(s.drop_last() =~= cells.subrange(0, n - 1));
        assert(run_ok(g, cells, n - 1));
        if n > 1 {
            assert(run_ok(g, cells, n - 2));
        }
        let c = cells[n - 1];
        assert(c.2 * c.3 == run_len(g, c)) by {
            if seg_steep(g) {
                assert(c.2 == 1);
            } else {
                assert(c.3 == 1);
            }
        }
    }
}

/// The runs of a rasterized segment cover both of its endpoints, no two of
/// them share a pixel, and together they hold `max(|dx|, |dy|) + 1` pixels.
pub proof fn lemma_line_runs(cells: Seq<Cell>, x1: int, y1: int, x2: int, y2: int)
    requires
        line_raster(cells, x1, y1, x2, y2),
    ensures
        exists|i: int| 0 <= i < cells.len() && covers(#[trigger] cells[i], x1, y1),
        exists|i: int| 0 <= i < cells.len() && covers(#[trigger] cells[i], x2, y2),
        forall|i: int, j: int, px: int, py: int|
            #![trigger covers(cells[i], px, py), covers(cells[j], px, py)]
            0 <= i < j < cells.len() && covers(cells[i], px, py) ==> !covers(cells[j], px, py),
        cells_area(cells) == if abs_int(x2 - x1) >= abs_int(y2 - y1) {
            abs_int(x2 - x1) + 1
        } else {
            abs_int(y2 - y1) + 1
        },
{
    let g = seg_ends(x1, y1, x2, y2);
    let n = cells.len() as int;
    assert(run_ok(g, cells, 0));
    assert(run_ok(g, cells, n - 1));
    assert(covers(cells[0], g.0, g.1));
    assert(covers(cells[n - 1], g.2, g.3));
    if x1 > x2 {
        assert(covers(cells[n - 1], x1, y1));
        assert(covers(cells[0], x2, y2));
    } else {
        assert(covers(cells[0], x1, y1));
        assert(covers(cells[n - 1], x2, y2));
    }
    assert forall|i: int, j: int, px: int, py: int|
        #![trigger covers(cells[i], px, py), covers(cells[j], px, py)]
        0 <= i < j < cells.len() && covers(cells[i], px, py) implies !covers(cells[j], px, py) by {
        assert(run_ok(g, cells, i));
        assert(run_ok(g, cells, j));
    }
    lemma_area_prefix(g, cells, n);
    assert(cells.subrange(0, n) =~= cells);
}

proof fn lemma_step(k: int, m: int, d: int, major: int, minor: int)
    requires
        d == 2 * k * minor - 2 * major * m,
    ensures
        d + 2 * minor - 2 * major == 2 * (k + 1) * minor - 2 * major * (m + 1),
        d + 2 * minor == 2 * (k + 1) * minor - 2 * major * m,
{
    assert(2 * (k + 1) * minor == 2 * k * minor + 2 * minor) by (nonlinear_arith);
    assert(2 * major * (m + 1) == 2 * major * m + 2 * major) by (nonlinear_arith);
}

proof fn lemma_error_term(k: int, m: int, d: int, major: int, minor: int)
    requires
        d == 2 * k * minor - 2 * major * m,
    ensures
        2 * (k * minor - major * m) == d,
{
    assert(2 * (k * minor - major * m) == 2 * k * minor - 2 * major * m) by (nonlinear_arith);
}

proof fn lemma_offset_bound(k: int, m: int, major: int, minor: int)
    requires
        0 < major,
        0 <= minor <= major,
        0 <= k <= major,
        -major < 2 * (k * minor - major * m),
    ensures
        m <= minor,
        k == major ==> 2 * (k * minor - major * m) <= major ==> m == minor,
{
    assert(k * minor <= major * minor) by (nonlinear_arith)
        requires
            0 <= k <= major,
            0 <= minor,
    ;
    if m > minor {
        assert(major * m >= major * (minor + 1)) by (nonlinear_arith)
            requires
                m >= minor + 1,
                0 < major,
        ;
        assert(major * (minor + 1) == major * minor + major) by (nonlinear_arith);
    }
    if k == major && 2 * (k * minor - major * m) <= major && m < minor {
        assert(major * m <= major * (minor - 1)) by (nonlinear_arith)
            requires
                m <= minor - 1,
                0 < major,
        ;
        assert(major * (minor - 1) == major * minor - major) by (nonlinear_arith);
        assert(k * minor == major * minor);
    }
}

/// The cell of run `j`, which starts at major-axis offset `a` and holds
/// `len` pixels.
fn run_cell(sx: i32, sy: i32, ex: i32, ey: i32, steep: bool, j: i64, a: i64, len: i64) -> (c: Cell)
    requires
        sx <= ex,
        steep == seg_steep((sx as int, sy as int, ex as int, ey as int)),
        0 <= j <= seg_minor((sx as int, sy as int, ex as int, ey as int)),
        0 <= a,
        1 <= len,
        a + len <= seg_major((sx as int, sy as int, ex as int, ey as int)) + 1,
        seg_major((sx as int, sy as int, ex as int, ey as int)) < i32::MAX,
    ensures
        run_shape((sx as int, sy as int, ex as int, ey as int), c, j as int),
        run_start((sx as int, sy as int, ex as int, ey as int), c) == a,
        run_len((sx as int, sy as int, ex as int, ey as int), c) == len,
{
    let rises = sy > ey;
    if !steep {
        let y = if rises { sy as i64 - j } else { sy as i64 + j };
        ((sx as i64 + a) as i32, y as i32, len as i32, 1)
    } else if !rises {
        ((sx as i64 + j) as i32, (sy as i64 + a) as i32, 1, len as i32)
    } else {
        ((sx as i64 + j) as i32, (sy as i64 - (a + len - 1)) as i32, 1, len as i32)
    }
}

/// Rasterizes the segment from `(x1, y1)` to `(x2, y2)` into runs.
///
/// The segment is walked from its left end along its major axis (x when
/// `|dx| >= |dy|`, else y); the offset across it is kept by an integer error
/// term, and each stretch of constant offset is emitted as one cell that is
/// one pixel thick. The last run is closed at the true endpoint.
pub fn get_line_coordinates(x1: i32, y1: i32, x2: i32, y2: i32) -> (r: Vec<Cell>)
    requires
        line_fits(x1 as int, y1 as int, x2 as int, y2 as int),
    ensures
        line_raster(r@, x1 as int, y1 as int, x2 as int, y2 as int),
{
    let ghost g = seg_ends(x1 as int, y1 as int, x2 as int, y2 as int);
    let (sx, sy, ex, ey) = if x1 > x2 { (x2, y2, x1, y1) } else { (x1, y1, x2, y2) };
    let dx: i64 = ex as i64 - sx as i64;
    let dy: i64 = if ey < sy { sy as i64 - ey as i64 } else { ey as i64 - sy as i64 };
    let steep = dx < dy;
    let major: i64 = if steep { dy } else { dx };
    let minor: i64 = if steep { dx } else { dy };
    assert(g == (sx as int, sy as int, ex as int, ey as int));
    assert(major == seg_major(g) && minor == seg_minor(g));

    let mut cells: Vec<Cell> = Vec::new();
    let mut start: i64 = 0;
    let mut k: i64 = 0;
    let mut j: i64 = 0;
    let mut p: i64 = 2 * minor - major;
    let ghost mut d: int = 0;
    assert(2 * 0 * minor - 2 * major * 0 == 0) by (nonlinear_arith);
    while k < major
        invariant
            g == (sx as int, sy as int, ex as int, ey as int),
            sx <= ex,
            steep == seg_steep(g),
            major == seg_major(g),
            minor == seg_minor(g),
            0 <= minor <= major < i32::MAX,
            0 <= start <= k <= major,
            0 <= j <= minor,
            d == 2 * k * minor - 2 * major * j,
            p == d + 2 * minor - major,
            major > 0 ==> -major < d <= major,
            cells@.len() == j,
            forall|kk: int| start <= kk <= k ==> #[trigger] nearest_step(kk, j as int, major as int, minor as int),
            forall|i: int| 0 <= i < cells@.len() ==> #[trigger] run_ok(g, cells@, i),
            cells@.len() == 0 ==> start == 0,
            cells@.len() > 0 ==> run_start(g, cells@.last()) + run_len(g, cells@.last()) == start,
        decreases major - k,
    {
        proof {
            lemma_step(k as int, j as int, d, major as int, minor as int);
        }
        k += 1;
        if p > 0 {
            proof {
                lemma_error_term(k as int, j as int + 1, d + 2 * minor - 2 * major, major as int, minor as int);
                lemma_offset_bound(k as int, j as int + 1, major as int, minor as int);
            }
            let c = run_cell(sx, sy, ex, ey, steep, j, start, k - start);
            let ghost prev = cells@;
            cells.push(c);
            assert forall|i: int| 0 <= i < cells@.len() implies #[trigger] run_ok(g, cells@, i) by {
                if i < prev.len() {
                    assert(run_ok(g, prev, i));
                    assert(cells@[i] == prev[i]);
                    if i > 0 {
                        assert(cells@[i - 1] == prev[i - 1]);
                    }
                } else {
                    assert forall|kk: int|
                        run_start(g, c) <= kk < run_start(g, c) + run_len(g, c) implies #[trigger] nearest_step(
                        kk,
                        i,
                        seg_major(g),
                        seg_minor(g),
                    ) by {
                        assert(nearest_step(kk, j as int, major as int, minor as int));
                    }
                }
            }
            start = k;
            j += 1;
            p = p + 2 * minor - 2 * major;
            proof {
                d = d + 2 * minor - 2 * major;
            }
        } else {
            p = p + 2 * minor;
            proof {
                d = d + 2 * minor;
                lemma_error_term(k as int, j as int, d, major as int, minor as int);
            }
        }
    }
    proof {
        if major > 0 {
            lemma_error_term(k as int, j as int, d, major as int, minor as int);
            lemma_offset_bound(k as int, j as int, major as int, minor as int);
        }
    }
    assert(j == minor);
    let c = run_cell(sx, sy, ex, ey, steep, j, start, major + 1 - start);
    let ghost prev = cells@;
    cells.push(c);
    assert forall|i: int| 0 <= i < cells@.len() implies #[trigger] run_ok(g, cells@, i) by {
        if i < prev.len() {
            assert(run_ok(g, prev, i));
            assert(cells@[i] == prev[i]);
            if i > 0 {
                assert(cells@[i - 1] == prev[i - 1]);
            }
        } else {
            assert forall|kk: int|
                run_start(g, c) <= kk < run_start(g, c) + run_len(g, c) implies #[trigger] nearest_step(
                kk,
                i,
                seg_major(g),
                seg_minor(g),
            ) by {
                assert(nearest_step(kk, j as int, major as int, minor as int));
            }
        }
    }
    cells
}

/// The angles, in degrees, at which an arc from `start` over `sweep` is
/// sampled: every 8 degrees from `start` while not past `start + sweep`.
pub open spec fn sample_angle(start: int, k: int) -> int {
    start + 8 * k
}

/// The number of samples of an arc over `sweep` degrees.
pub open spec fn sample_count(sweep: int) -> int {
    if sweep < 0 { 0 } else { sweep / 8 + 1 }
}

/// The angles at which an arc from `start` over `sweep` degrees is sampled.
pub fn arc_sample_angles(start: i32, sweep: i32) -> (r: Vec<i64>)
    ensures
        r@.len() == sample_count(sweep as int),
        forall|k: int| 0 <= k < r@.len() ==> #[trigger] r@[k] == sample_angle(start as int, k),
        forall|k: int| 0 <= k < r@.len() ==> #[trigger] r@[k] <= start + sweep,
{
    let end: i64 = start as i64 + sweep as i64;
    let mut r: Vec<i64> = Vec::new();
    let mut ss: i64 = start as i64;
    while ss <= end
        invariant
            end == start as int + sweep as int,
            ss == start as int + 8 * r@.len(),
            r@.len() > 0 ==> 8 * (r@.len() - 1) <= sweep,
            r@.len() == 0 || sweep >= 0,
            forall|k: int| 0 <= k < r@.len() ==> #[trigger] r@[k] == sample_angle(start as int, k),
        decreases end + 8 - ss,
    {
        r.push(ss);
        ss = ss + 8;
    }
    assert forall|k: int| 0 <= k < r@.len() implies #[trigger] r@[k] <= start + sweep by {
        assert(r@[k] == start + 8 * k);
    }
    r
}

/// The unit cell at an arc sample point.
pub open spec fn unit_cell(p: (i32, i32)) -> Cell {
    (p.0, p.1, 1, 1)
}

/// The cells of an arc with sample points `pts`: a unit cell at each point,
/// except where it repeats the cell emitted just before it.
pub open spec fn arc_cells_spec(pts: Seq<(i32, i32)>) -> Seq<Cell>
    decreases pts.len(),
{
    if pts.len() == 0 {
        Seq::empty()
    } else {
        let r = arc_cells_spec(pts.drop_last());
        let c = unit_cell(pts.last());
        if r.len() > 0 && r.last() == c { r } else { r.push(c) }
    }
}

proof fn lemma_arc_cells_shape(pts: Seq<(i32, i32)>)
    ensures
        pts.len() > 0 ==> arc_cells_spec(pts).len() > 0 && arc_cells_spec(pts)[0] == unit_cell(pts[0]),
        arc_cells_spec(pts).len() <= pts.len(),
        forall|i: int|
            0 <= i < arc_cells_spec(pts).len() - 1 ==> #[trigger] arc_cells_spec(pts)[i] != arc_cells_spec(
                pts,
            )[i + 1],
    decreases pts.len(),
{
    if pts.len() > 0 {
        let front = pts.drop_last();
        lemma_arc_cells_shape(front);
        if front.len() > 0 {
            assert(front[0] == pts[0]);
        }
    }
}

/// The cells of an arc with sample points `pts` (already rounded to
/// pixels): one unit cell per point, dropping a point that repeats the one
/// emitted just before it. The first cell is at the first point, and no
/// two consecutive cells are equal.
pub fn get_curve_coordinates(pts: &Vec<(i32, i32)>) -> (r: Vec<Cell>)
    ensures
        r@ == arc_cells_spec(pts@),
        pts@.len() > 0 ==> r@.len() > 0 && r@[0] == unit_cell(pts@[0]),
        forall|i: int| 0 <= i < r@.len() - 1 ==> #[trigger] r@[i] != r@[i + 1],
{
    let mut r: Vec<Cell> = Vec::new();
    let mut k: usize = 0;
    while k < pts.len()
        invariant
            k <= pts@.len(),
            r@ == arc_cells_spec(pts@.subrange(0, k as int)),
        decreases pts.len() - k,
    {
        let (xx, yy) = pts[k];
        assert(pts@.subrange(0, k + 1).drop_last() =~= pts@.subrange(0, k as int));
        let n = r.len();
        if n == 0 || r[n - 1].0 != xx || r[n - 1].1 != yy || r[n - 1].2 != 1 || r[n - 1].3 != 1 {
            r.push((xx, yy, 1, 1));
        }
        k += 1;
    }
    assert(pts@.subrange(0, k as int) =~= pts@);
    proof {
        lemma_arc_cells_shape(pts@);
    }
    r
}

} // verus!
