//! Grouping cells into glyphs: the cells connected to a seed through the
//! adjacency relation.
use vstd::prelude::*;
use crate::cell::Cell;

verus! {

/// Pool cell `i` touches the known cell `cc`, in one of the ways arcs and
/// line runs meet when they are drawn:
/// - at the same origin with another size (an arc sample on a line run);
/// - diagonally against one of `cc`'s corners;
/// - one unit off diagonally ("peak" and "valley" touches);
/// - one unit off along one axis with the same size;
/// - with overlapping spans: `cc`'s left edge within `i`'s width while `i`'s
///   top is within `cc`'s height, `i`'s origin within `cc`'s box, or `i`'s
///   box sitting on top of `cc`'s.
pub open spec fn adjacent(cc: Cell, i: Cell) -> bool {
    let (cc_x, cc_y, cc_w, cc_h) = (cc.0 as int, cc.1 as int, cc.2 as int, cc.3 as int);
    let (x, y, w, h) = (i.0 as int, i.1 as int, i.2 as int, i.3 as int);
    ||| x == cc_x && y == cc_y && (w != cc_w || h != cc_h)
    ||| (x == cc_w + cc_x && y == cc_y - h) || (x == cc_x - w && y == cc_y - cc_h) || (x == cc_x
        - w && y == cc_y - h)
    ||| (cc_x == x + 1 && cc_y == y - 1) || (cc_y == y - 1 && x == cc_x + 1)
    ||| (x + 1 == cc_x && y + 1 == cc_y) || (cc_x + 1 == x && y + 1 == cc_y)
    ||| ((x == cc_x - 1 || x == cc_x + 1) && w == cc_w && h == cc_h && y == cc_y) || ((y == cc_y - 1
        || y == cc_y + 1) && w == cc_w && h == cc_h && x == cc_x)
    ||| (cc_x <= w + x && cc_x >= x) && (y <= cc_y + cc_h && y >= cc_y)
    ||| (y >= cc_y && y <= cc_y + cc_h) && (x >= cc_x && x <= cc_x + cc_w)
    ||| (x <= cc_x + cc_w && x >= cc_x - w) && (y >= cc_y - h && y <= cc_y - h + cc_h)
}

/// `path` starts at a seed and each later step is a pool cell adjacent to
/// the one before it.
pub open spec fn is_path(seeds: Seq<Cell>, pool: Seq<Cell>, path: Seq<Cell>) -> bool {
    &&& path.len() > 0
    &&& seeds.contains(path[0])
    &&& forall|k: int|
        0 <= k < path.len() - 1 ==> pool.contains(#[trigger] path[k + 1]) && adjacent(
            path[k],
            path[k + 1],
        )
}

/// Cell `c` belongs to the glyph grown from `seeds` within `pool`.
pub open spec fn in_glyph(seeds: Seq<Cell>, pool: Seq<Cell>, c: Cell) -> bool {
    exists|path: Seq<Cell>| #[trigger] is_path(seeds, pool, path) && path.last() == c
}

/// The glyph grown from `seeds` in `pool` depends only on which cells the
/// two hold, not on their order or repetitions: clustering twice from the
/// same seeds over the same pool gives the same cells.
pub proof fn lemma_glyph_order_independent(
    seeds1: Seq<Cell>,
    pool1: Seq<Cell>,
    seeds2: Seq<Cell>,
    pool2: Seq<Cell>,
)
    requires
        seeds1.to_set() == seeds2.to_set(),
        pool1.to_set() == pool2.to_set(),
    ensures
        forall|c: Cell| in_glyph(seeds1, pool1, c) == in_glyph(seeds2, pool2, c),
{
    assert forall|path: Seq<Cell>| is_path(seeds1, pool1, path) == is_path(seeds2, pool2, path) by {
        assert(seeds1.contains(path[0]) == seeds1.to_set().contains(path[0]));
        assert(seeds2.contains(path[0]) == seeds2.to_set().contains(path[0]));
        assert forall|k: int| 0 <= k < path.len() - 1 implies pool1.contains(#[trigger] path[k + 1])
            == pool2.contains(path[k + 1]) by {
            assert(pool1.contains(path[k + 1]) == pool1.to_set().contains(path[k + 1]));
            assert(pool2.contains(path[k + 1]) == pool2.to_set().contains(path[k + 1]));
        }
    }
}

/// Every cell at the end of a path lies in a set that holds the seeds and
/// takes in every pool cell adjacent to one of its cells.
proof fn lemma_path_closed(seeds: Seq<Cell>, pool: Seq<Cell>, known: Seq<Cell>, path: Seq<Cell>)
    requires
        is_path(seeds, pool, path),
        forall|c: Cell| seeds.contains(c) ==> known.contains(c),
        forall|a: Cell, b: Cell|
            known.contains(a) && pool.contains(b) && adjacent(a, b) ==> #[trigger] known.contains(b)
                && #[trigger] adjacent(a, b),
    ensures
        known.contains(path.last()),
    decreases path.len(),
{
    if path.len() > 1 {
        let front = path.drop_last();
        assert forall|k: int| 0 <= k < front.len() - 1 implies pool.contains(#[trigger] front[k + 1])
            && adjacent(front[k], front[k + 1]) by {
            assert(front[k + 1] == path[k + 1]);
            assert(front[k] == path[k]);
        }
        lemma_path_closed(seeds, pool, known, front);
        let n = path.len() - 2;
        assert(pool.contains(path[n + 1]) && adjacent(path[n], path[n + 1]));
    }
}

/// Whether `c` occurs in `v`.
pub fn contains_cell(v: &Vec<Cell>, c: Cell) -> (b: bool)
    ensures
        b == v@.contains(c),
{
    let mut k: usize = 0;
    while k < v.len()
        invariant
            k <= v@.len(),
            forall|j: int| 0 <= j < k ==> v@[j] != c,
        decreases v.len() - k,
    {
        let e = v[k];
        if e.0 == c.0 && e.1 == c.1 && e.2 == c.2 && e.3 == c.3 {
            assert(v@[k as int] == c);
            return true;
        }
        k += 1;
    }
    false
}

/// Whether pool cell `i` touches the known cell `cc`.
fn is_adjacent(cc: Cell, i: Cell) -> (b: bool)
    ensures
        b == adjacent(cc, i),
{
    let (cc_x, cc_y, cc_w, cc_h) = (cc.0 as i64, cc.1 as i64, cc.2 as i64, cc.3 as i64);
    let (x, y, w, h) = (i.0 as i64, i.1 as i64, i.2 as i64, i.3 as i64);
    if x == cc_x && y == cc_y && (w != cc_w || h != cc_h) {
        return true;
    }
    if (x == cc_w + cc_x && y == cc_y - h) || (x == cc_x - w && y == cc_y - cc_h) || (x == cc_x - w
        && y == cc_y - h) {
        return true;
    }
    if (cc_x == x + 1 && cc_y == y - 1) || (cc_y == y - 1 && x == cc_x + 1) {
        return true;
    }
    if (x + 1 == cc_x && y + 1 == cc_y) || (cc_x + 1 == x && y + 1 == cc_y) {
        return true;
    }
    if ((x == cc_x - 1 || x == cc_x + 1) && w == cc_w && h == cc_h && y == cc_y) || ((y == cc_y - 1
        || y == cc_y + 1) && w == cc_w && h == cc_h && x == cc_x) {
        return true;
    }
    if (cc_x <= w + x && cc_x >= x) && (y <= cc_y + cc_h && y >= cc_y) {
        return true;
    }
    if (y >= cc_y && y <= cc_y + cc_h) && (x >= cc_x && x <= cc_x + cc_w) {
        return true;
    }
    (x <= cc_x + cc_w && x >= cc_x - w) && (y >= cc_y - h && y <= cc_y - h + cc_h)
}

proof fn lemma_push_contains(v: Seq<Cell>, x: Cell)
    ensures
        forall|c: Cell| #[trigger] v.push(x).contains(c) <==> v.contains(c) || c == x,
        v.no_duplicates() && !v.contains(x) ==> v.push(x).no_duplicates(),
{
    let w = v.push(x);
    assert(w[w.len() - 1] == x);
    assert forall|c: Cell| v.contains(c) implies w.contains(c) by {
        let idx = choose|idx: int| 0 <= idx < v.len() && v[idx] == c;
        assert(w[idx] == c);
    }
    assert forall|c: Cell| w.contains(c) implies v.contains(c) || c == x by {
        let idx = choose|idx: int| 0 <= idx < w.len() && w[idx] == c;
        if idx < v.len() {
            assert(v[idx] == c);
        }
    }
    if v.no_duplicates() && !v.contains(x) {
        assert forall|a: int, b: int| 0 <= a < b < w.len() implies w[a] != w[b] by {
            if b == v.len() {
                assert(v.contains(v[a]));
            }
        }
    }
}

proof fn lemma_unique_len_bound(a: Seq<Cell>, b: Seq<Cell>)
    requires
        a.no_duplicates(),
        forall|c: Cell| a.contains(c) ==> b.contains(c),
    ensures
        a.len() <= b.len(),
{
    broadcast use vstd::seq_lib::seq_to_set_is_finite;

    a.unique_seq_to_set();
    b.lemma_cardinality_of_set();
    assert(a.to_set().subset_of(b.to_set()));
    vstd::set_lib::lemma_len_subset(a.to_set(), b.to_set());
}

/// The glyph grown from `initial_coordinates` within `all_coordinates`: the
/// seeds, and every pool cell reached from them by a chain of adjacent pool
/// cells. Cells are taken in by sweeps over the newly known ones until a
/// sweep adds nothing; each cell occurs once in the result.
pub fn analyze_character(all_coordinates: Vec<Cell>, initial_coordinates: Vec<Cell>) -> (r: Vec<Cell>)
    ensures
        r@.no_duplicates(),
        forall|c: Cell| r@.contains(c) <==> in_glyph(initial_coordinates@, all_coordinates@, c),
{
    let ghost seeds = initial_coordinates@;
    let ghost pool = all_coordinates@;
    let ghost both = seeds + pool;
    let mut known: Vec<Cell> = Vec::new();
    let mut k: usize = 0;
    while k < initial_coordinates.len()
        invariant
            k <= seeds.len(),
            seeds == initial_coordinates@,
            both == seeds + pool,
            known@.no_duplicates(),
            forall|j: int| 0 <= j < k ==> known@.contains(#[trigger] seeds[j]),
            forall|c: Cell| known@.contains(c) ==> seeds.contains(c),
        decreases seeds.len() - k,
    {
        let s = initial_coordinates[k];
        if !contains_cell(&known, s) {
            proof {
                lemma_push_contains(known@, s);
            }
            known.push(s);
        }
        assert(known@.contains(s));
        k += 1;
    }
    assert forall|c: Cell| known@.contains(c) implies in_glyph(seeds, pool, c) by {
        let path = seq![c];
        assert(is_path(seeds, pool, path));
    }
    assert forall|c: Cell| known@.contains(c) implies both.contains(c) by {
        assert(seeds.contains(c));
        let idx = choose|idx: int| 0 <= idx < seeds.len() && seeds[idx] == c;
        assert(both[idx] == c);
    }
    let mut visited: usize = 0;
    while visited < known.len()
        invariant
            seeds == initial_coordinates@,
            pool == all_coordinates@,
            both == seeds + pool,
            visited <= known@.len(),
            known@.no_duplicates(),
            forall|c: Cell| seeds.contains(c) ==> known@.contains(c),
            forall|c: Cell| known@.contains(c) ==> both.contains(c),
            forall|c: Cell| known@.contains(c) ==> in_glyph(seeds, pool, c),
            forall|i: int, j: int|
                0 <= i < visited && 0 <= j < pool.len() && adjacent(known@[i], pool[j])
                    ==> known@.contains(#[trigger] pool[j]) && #[trigger] adjacent(known@[i], pool[j]),
        decreases 2 * both.len() - known@.len() - visited,
    {
        proof {
            lemma_unique_len_bound(known@, both);
        }
        let cc = known[visited];
        let ghost len0 = known@.len();
        let mut j: usize = 0;
        while j < all_coordinates.len()
            invariant
                seeds == initial_coordinates@,
                pool == all_coordinates@,
                both == seeds + pool,
                visited < known@.len(),
                len0 <= known@.len(),
                cc == known@[visited as int],
                j <= pool.len(),
                known@.no_duplicates(),
                forall|c: Cell| seeds.contains(c) ==> known@.contains(c),
                forall|c: Cell| known@.contains(c) ==> both.contains(c),
                forall|c: Cell| known@.contains(c) ==> in_glyph(seeds, pool, c),
                forall|i: int, jj: int|
                    0 <= i < visited && 0 <= jj < pool.len() && adjacent(known@[i], pool[jj])
                        ==> known@.contains(#[trigger] pool[jj]) && #[trigger] adjacent(known@[i], pool[jj]),
                forall|jj: int| 0 <= jj < j && adjacent(cc, pool[jj]) ==> known@.contains(#[trigger] pool[jj]),
            decreases pool.len() - j,
        {
            let i = all_coordinates[j];
            if is_adjacent(cc, i) && !contains_cell(&known, i) {
                proof {
                    assert(known@.contains(cc));
                    let p = choose|p: Seq<Cell>| #[trigger] is_path(seeds, pool, p) && p.last() == cc;
                    let q = p.push(i);
                    assert(pool.contains(pool[j as int]));
                    assert forall|m: int| 0 <= m < q.len() - 1 implies pool.contains(#[trigger] q[m + 1])
                        && adjacent(q[m], q[m + 1]) by {
                        if m < p.len() - 1 {
                            assert(q[m + 1] == p[m + 1]);
                            assert(q[m] == p[m]);
                        }
                    }
                    assert(is_path(seeds, pool, q));
                    assert(both.contains(i)) by {
                        assert(both[seeds.len() + j] == i);
                    }
                }
                let ghost prev = known@;
                proof {
                    lemma_push_contains(known@, i);
                }
                known.push(i);
                assert forall|ii: int| 0 <= ii < visited implies known@[ii] == prev[ii] by {}
            }
            j += 1;
        }
        proof {
            lemma_unique_len_bound(known@, both);
        }
        visited += 1;
    }
    proof {
        assert forall|c: Cell| in_glyph(seeds, pool, c) implies known@.contains(c) by {
            let p = choose|p: Seq<Cell>| #[trigger] is_path(seeds, pool, p) && p.last() == c;
            assert forall|a: Cell, b: Cell|
                known@.contains(a) && pool.contains(b) && adjacent(a, b) implies #[trigger] known@.contains(b)
                    && #[trigger] adjacent(a, b) by {
                let ia = choose|ia: int| 0 <= ia < known@.len() && known@[ia] == a;
                let jb = choose|jb: int| 0 <= jb < pool.len() && pool[jb] == b;
                assert(adjacent(known@[ia], pool[jb]));
            }
            lemma_path_closed(seeds, pool, known@, p);
        }
    }
    known
}

} // verus!
