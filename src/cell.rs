//! Cells: the axis-aligned rectangles of occupied space that rasterized
//! primitives leave behind.
use vstd::prelude::*;

verus! {

/// A cell as `(x, y, w, h)`: left, top, width and height.
pub type Cell = (i32, i32, i32, i32);

/// A cell with named fields.
pub struct Coordinates {
    pub x: i32,
    pub y: i32,
    pub w: i32,
    pub h: i32,
}

/// `c` is a unit cell anchored at an arc sample among `arcs`.
pub open spec fn is_arc_cell(c: Cell, arcs: Seq<Cell>) -> bool {
    &&& c.2 == 1
    &&& c.3 == 1
    &&& exists|k: int| 0 <= k < arcs.len() && arcs[k].0 == c.0 && arcs[k].1 == c.1
}

/// A cell is kept by a filter exactly when it occurs and passes the test.
pub proof fn lemma_filter_member(s: Seq<Cell>, f: spec_fn(Cell) -> bool, c: Cell)
    ensures
        s.filter(f).contains(c) <==> s.contains(c) && f(c),
{
    broadcast use vstd::seq_lib::group_filter_ensures;

    if s.contains(c) && f(c) {
        let i = choose|i: int| 0 <= i < s.len() && s[i] == c;
        assert(s.filter(f).contains(s[i]));
    }
    if s.filter(f).contains(c) {
        s.lemma_filter_contains_rev(f, c);
        let j = choose|j: int| 0 <= j < s.filter(f).len() && s.filter(f)[j] == c;
        assert(f(s.filter(f)[j]));
    }
}

/// A copy of `cells`.
pub fn copy_cells(cells: &Vec<Cell>) -> (r: Vec<Cell>)
    ensures
        r@ == cells@,
{
    let mut r: Vec<Cell> = Vec::new();
    let mut k: usize = 0;
    while k < cells.len()
        invariant
            k <= cells@.len(),
            r@ == cells@.subrange(0, k as int),
        decreases cells.len() - k,
    {
        r.push(cells[k]);
        k += 1;
        assert(r@ =~= cells@.subrange(0, k as int));
    }
    assert(cells@.subrange(0, k as int) =~= cells@);
    r
}

impl Coordinates {
    pub open spec fn cell(&self) -> Cell {
        (self.x, self.y, self.w, self.h)
    }

    pub fn new(c: Cell) -> (r: Coordinates)
        ensures
            r.cell() == c,
    {
        Coordinates { x: c.0, y: c.1, w: c.2, h: c.3 }
    }

    /// Whether this is a unit cell whose origin is that of one of the arc
    /// samples in `arcs`; any other cell belongs to a line.
    pub fn is_arc(&self, arcs: Vec<Cell>) -> (r: bool)
        ensures
            r == is_arc_cell(self.cell(), arcs@),
    {
        self.is_arc_among(&arcs)
    }

    /// As `is_arc`, on borrowed samples.
    pub fn is_arc_among(&self, arcs: &Vec<Cell>) -> (r: bool)
        ensures
            r == is_arc_cell(self.cell(), arcs@),
    {
        if self.w == 1 && self.h == 1 {
            let mut k: usize = 0;
            while k < arcs.len()
                invariant
                    k <= arcs.len(),
                    self.w == 1 && self.h == 1,
                    forall|j: int| 0 <= j < k ==> !(arcs@[j].0 == self.x && arcs@[j].1 == self.y),
                decreases arcs.len() - k,
            {
                if arcs[k].0 == self.x && arcs[k].1 == self.y {
                    assert(arcs@[k as int].0 == self.x && arcs@[k as int].1 == self.y);
                    return true;
                }
                k += 1;
            }
            false
        } else {
            false
        }
    }
}

} // verus!
