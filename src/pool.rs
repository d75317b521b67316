//! The cell pool: every cell that the primitives rasterize to, each once.
use vstd::prelude::*;
use crate::cell::Cell;
use crate::classify::{cells_with_key, extremal_cells, extreme_key, key_ext, lemma_extremal_nonempty};
use crate::cluster::contains_cell;
use crate::primitive::Primitive;
use crate::raster::{arc_cells_spec, get_curve_coordinates, get_line_coordinates, line_fits, line_raster};

verus! {

/// Every line among `prims` has an extent that fits the cell fields.
pub open spec fn all_lines_fit(prims: Seq<Primitive>) -> bool {
    forall|i: int|
        0 <= i < prims.len() ==> match #[trigger] prims[i] {
            Primitive::Line { x1, y1, x2, y2 } => line_fits(x1 as int, y1 as int, x2 as int, y2 as int),
            Primitive::Arc { .. } => true,
        }
}

/// `cells` is what primitive `p` rasterizes to, `pts` being its sample
/// points when it is an arc.
pub open spec fn rasterized(p: Primitive, pts: Seq<(i32, i32)>, cells: Seq<Cell>) -> bool {
    match p {
        Primitive::Line { x1, y1, x2, y2 } => line_raster(cells, x1 as int, y1 as int, x2 as int, y2 as int),
        Primitive::Arc { .. } => cells == arc_cells_spec(pts),
    }
}

/// The cells of the first `n` chunks whose primitive is an arc (or a line),
/// one after the other.
pub open spec fn cells_of_kind(prims: Seq<Primitive>, chunks: Seq<Vec<Cell>>, arcs: bool, n: int) -> Seq<Cell>
    decreases n,
{
    if n <= 0 {
        Seq::empty()
    } else {
        let before = cells_of_kind(prims, chunks, arcs, n - 1);
        if (prims[n - 1] is Arc) == arcs { before + chunks[n - 1]@ } else { before }
    }
}

/// `s` with every repeated cell dropped after its first occurrence.
pub open spec fn first_occurrences(s: Seq<Cell>) -> Seq<Cell>
    decreases s.len(),
{
    if s.len() == 0 {
        Seq::empty()
    } else {
        let r = first_occurrences(s.drop_last());
        if r.contains(s.last()) { r } else { r.push(s.last()) }
    }
}

proof fn lemma_first_occurrences(s: Seq<Cell>)
    ensures
        first_occurrences(s).no_duplicates(),
        forall|c: Cell| first_occurrences(s).contains(c) <==> s.contains(c),
    decreases s.len(),
{
    if s.len() > 0 {
        let t = s.drop_last();
        lemma_first_occurrences(t);
        let r = first_occurrences(t);
        assert forall|c: Cell| s.contains(c) <==> t.contains(c) || c == s.last() by {
            if s.contains(c) {
                let i = choose|i: int| 0 <= i < s.len() && s[i] == c;
                if i < s.len() - 1 {
                    assert(t[i] == c);
                }
            }
            if t.contains(c) {
                let i = choose|i: int| 0 <= i < t.len() && t[i] == c;
                assert(s[i] == c);
            }
            if c == s.last() {
                assert(s[s.len() - 1] == c);
            }
        }
        if !r.contains(s.last()) {
            let w = r.push(s.last());
            assert forall|c: Cell| w.contains(c) <==> r.contains(c) || c == s.last() by {
                if w.contains(c) {
                    let i = choose|i: int| 0 <= i < w.len() && w[i] == c;
                    if i < r.len() {
                        assert(r[i] == c);
                    }
                }
                if r.contains(c) {
                    let i = choose|i: int| 0 <= i < r.len() && r[i] == c;
                    assert(w[i] == c);
                }
                assert(w[w.len() - 1] == s.last());
            }
            assert forall|a: int, b: int| 0 <= a < b < w.len() implies w[a] != w[b] by {
                if b == r.len() {
                    assert(r.contains(r[a]));
                }
            }
        }
    }
}

/// Rasterizes each primitive: a line into its runs, an arc into unit cells
/// at its sample points, which `arc_points` holds at the arc's index (it is
/// not read for lines). `None` when a line is too long for the cell fields.
pub fn rasterize(prims: &Vec<Primitive>, arc_points: &Vec<Vec<(i32, i32)>>) -> (r: Option<Vec<Vec<Cell>>>)
    requires
        arc_points@.len() == prims@.len(),
    ensures
        r is None <==> !all_lines_fit(prims@),
        r is Some ==> r->Some_0@.len() == prims@.len() && forall|i: int|
            0 <= i < prims@.len() ==> rasterized(prims@[i], arc_points@[i]@, #[trigger] r->Some_0@[i]@),
{
    let mut chunks: Vec<Vec<Cell>> = Vec::new();
    let mut i: usize = 0;
    while i < prims.len()
        invariant
            arc_points@.len() == prims@.len(),
            i <= prims@.len(),
            chunks@.len() == i,
            forall|j: int| 0 <= j < i ==> rasterized(prims@[j], arc_points@[j]@, #[trigger] chunks@[j]@),
            forall|j: int|
                0 <= j < i ==> match #[trigger] prims@[j] {
                    Primitive::Line { x1, y1, x2, y2 } => line_fits(x1 as int, y1 as int, x2 as int, y2 as int),
                    Primitive::Arc { .. } => true,
                },
        decreases prims.len() - i,
    {
        let cells = match prims[i] {
            Primitive::Line { x1, y1, x2, y2 } => {
                let dx: i64 = x2 as i64 - x1 as i64;
                let dy: i64 = y2 as i64 - y1 as i64;
                if dx >= i32::MAX as i64 || -dx >= i32::MAX as i64 || dy >= i32::MAX as i64 || -dy
                    >= i32::MAX as i64 {
                    assert(!all_lines_fit(prims@)) by {
                        assert(!match prims@[i as int] {
                            Primitive::Line { x1, y1, x2, y2 } => line_fits(
                                x1 as int,
                                y1 as int,
                                x2 as int,
                                y2 as int,
                            ),
                            Primitive::Arc { .. } => true,
                        });
                    }
                    return None;
                }
                get_line_coordinates(x1, y1, x2, y2)
            },
            Primitive::Arc { .. } => get_curve_coordinates(&arc_points[i]),
        };
        chunks.push(cells);
        i += 1;
    }
    Some(chunks)
}

/// The cells of the chunks whose primitive is an arc (`arcs`) or a line,
/// in primitive order.
pub fn gather_cells(prims: &Vec<Primitive>, chunks: &Vec<Vec<Cell>>, arcs: bool) -> (r: Vec<Cell>)
    requires
        chunks@.len() == prims@.len(),
    ensures
        r@ == cells_of_kind(prims@, chunks@, arcs, prims@.len() as int),
{
    let mut r: Vec<Cell> = Vec::new();
    let mut i: usize = 0;
    while i < prims.len()
        invariant
            chunks@.len() == prims@.len(),
            i <= prims@.len(),
            r@ == cells_of_kind(prims@, chunks@, arcs, i as int),
        decreases prims.len() - i,
    {
        let is_arc = match prims[i] {
            Primitive::Arc { .. } => true,
            Primitive::Line { .. } => false,
        };
        if is_arc == arcs {
            let chunk = &chunks[i];
            let ghost r0 = r@;
            let mut k: usize = 0;
            while k < chunk.len()
                invariant
                    k <= chunk@.len(),
                    r@ == r0 + chunk@.subrange(0, k as int),
                decreases chunk.len() - k,
            {
                r.push(chunk[k]);
                k += 1;
                assert(r@ =~= r0 + chunk@.subrange(0, k as int));
            }
            assert(chunk@.subrange(0, k as int) =~= chunk@);
        }
        i += 1;
    }
    r
}

/// The cell pool: the cells of `first` and then of `second`, each cell
/// kept at its first occurrence only.
pub fn build_pool(first: &Vec<Cell>, second: &Vec<Cell>) -> (r: Vec<Cell>)
    ensures
        r@ == first_occurrences(first@ + second@),
        r@.no_duplicates(),
        forall|c: Cell| r@.contains(c) <==> (first@ + second@).contains(c),
{
    let ghost all = first@ + second@;
    let mut r: Vec<Cell> = Vec::new();
    let mut k: usize = 0;
    while k < first.len()
        invariant
            all == first@ + second@,
            k <= first@.len(),
            r@ == first_occurrences(all.subrange(0, k as int)),
        decreases first.len() - k,
    {
        let c = first[k];
        assert(c == all[k as int]);
        assert(all.subrange(0, k + 1).drop_last() =~= all.subrange(0, k as int));
        if !contains_cell(&r, c) {
            r.push(c);
        }
        k += 1;
    }
    let mut j: usize = 0;
    while j < second.len()
        invariant
            all == first@ + second@,
            j <= second@.len(),
            r@ == first_occurrences(all.subrange(0, first@.len() + j)),
        decreases second.len() - j,
    {
        let c = second[j];
        assert(c == all[first@.len() + j]);
        assert(all.subrange(0, first@.len() + j + 1).drop_last() =~= all.subrange(0, first@.len() + j));
        if !contains_cell(&r, c) {
            r.push(c);
        }
        j += 1;
    }
    assert(all.subrange(0, first@.len() + j) =~= all);
    proof {
        lemma_first_occurrences(all);
    }
    r
}

/// The seed of the first glyph: the first cell with the smallest y, the top
/// of the ring.
pub fn topmost_cell(cells: &Vec<Cell>) -> (r: Option<Cell>)
    ensures
        cells@.len() == 0 ==> r is None,
        cells@.len() > 0 ==> r == Some(extremal_cells(cells@, true, false)[0]),
{
    if cells.len() == 0 {
        return None;
    }
    proof {
        lemma_extremal_nonempty(cells@, true, false);
    }
    let min_y = extreme_key(cells, true, false);
    let top = cells_with_key(cells, true, min_y);
    Some(top[0])
}

/// The bounding box of the cells' origins, as `(min_x, max_x, min_y, max_y)`.
pub fn bounding_box(cells: &Vec<Cell>) -> (r: Option<(i32, i32, i32, i32)>)
    ensures
        cells@.len() == 0 ==> r is None,
        cells@.len() > 0 ==> r == Some(
            (
                key_ext(cells@, false, false) as i32,
                key_ext(cells@, false, true) as i32,
                key_ext(cells@, true, false) as i32,
                key_ext(cells@, true, true) as i32,
            ),
        ),
{
    if cells.len() == 0 {
        return None;
    }
    Some(
        (
            extreme_key(cells, false, false),
            extreme_key(cells, false, true),
            extreme_key(cells, true, false),
            extreme_key(cells, true, true),
        ),
    )
}

} // verus!
