//! The walk around the ring: where the next glyph is searched, and the
//! repeated search-and-cluster that resolves the glyphs one by one.
use vstd::prelude::*;
use crate::cell::{Cell, lemma_filter_member};
use crate::cluster::{analyze_character, contains_cell, in_glyph};
use crate::error::GlyphError;

verus! {

/// One of four quadrants of the ring, taken anti-clockwise from the top.
#[derive(Debug, Clone, Copy, PartialEq, Eq, Structural)]
pub enum Section {
    A,
    B,
    C,
    D,
}

/// Cell `c` lies in the quadrant, seen from `prev`, where the next glyph of
/// `section` is searched.
pub open spec fn in_quadrant(section: Section, prev: Cell, c: Cell) -> bool {
    match section {
        Section::A => c.0 <= prev.0 && c.1 >= prev.1,
        Section::B => c.0 >= prev.0 && c.1 >= prev.1,
        Section::C => c.0 >= prev.0 && c.1 <= prev.1,
        Section::D => c.0 <= prev.0 && c.1 <= prev.1,
    }
}

/// What the search minimises: y in A, x in B, minus y in C, minus x in D.
pub open spec fn search_key(section: Section, c: Cell) -> int {
    match section {
        Section::A => c.1 as int,
        Section::B => c.0 as int,
        Section::C => -(c.1 as int),
        Section::D => -(c.0 as int),
    }
}

/// `pool[i]` is the next seed: in the quadrant, with the least key there,
/// and the first such cell of the pool.
pub open spec fn is_next(section: Section, prev: Cell, pool: Seq<Cell>, i: int) -> bool {
    &&& 0 <= i < pool.len()
    &&& in_quadrant(section, prev, pool[i])
    &&& forall|j: int|
        0 <= j < pool.len() && in_quadrant(section, prev, #[trigger] pool[j]) ==> search_key(
            section,
            pool[i],
        ) <= search_key(section, pool[j])
    &&& forall|j: int|
        0 <= j < i && in_quadrant(section, prev, #[trigger] pool[j]) ==> search_key(section, pool[i])
            < search_key(section, pool[j])
}

/// The next seed, when some cell of the pool lies in the quadrant.
pub open spec fn next_seed(section: Section, prev: Cell, pool: Seq<Cell>) -> Option<Cell> {
    if exists|i: int| is_next(section, prev, pool, i) {
        Some(pool[choose|i: int| is_next(section, prev, pool, i)])
    } else {
        None
    }
}

/// The section in which glyph `n` of the walk lies: the seed glyph and the
/// first `cadence - 1` found after it in A, then `cadence` each in B, C, D,
/// A, and so on.
pub open spec fn section_at(n: int, cadence: int) -> Section {
    if n == 0 {
        Section::A
    } else {
        let q = ((n - 1) / cadence) % 4;
        if q == 0 {
            Section::A
        } else if q == 1 {
            Section::B
        } else if q == 2 {
            Section::C
        } else {
            Section::D
        }
    }
}

/// At most one cell of a pool is the next seed.
pub proof fn lemma_next_unique(section: Section, prev: Cell, pool: Seq<Cell>, i: int, j: int)
    requires
        is_next(section, prev, pool, i),
        is_next(section, prev, pool, j),
    ensures
        i == j,
{
    if i < j {
        assert(in_quadrant(section, prev, pool[i]));
    } else if j < i {
        assert(in_quadrant(section, prev, pool[j]));
    }
}

impl Section {
    /// The seed of the next glyph, searched from the previous glyph's
    /// representative cell `prev`: among the pool cells in this section's
    /// quadrant, the one with the smallest y (A), smallest x (B), largest y
    /// (C) or largest x (D), the first of the pool among equals. Fails when
    /// the quadrant holds no cell.
    pub fn get_next(&self, prev: Cell, all_coordinates: &Vec<Cell>) -> (r: Result<Cell, GlyphError>)
        ensures
            r is Ok <==> next_seed(*self, prev, all_coordinates@) is Some,
            r is Ok ==> r->Ok_0 == next_seed(*self, prev, all_coordinates@)->Some_0,
            r is Err ==> r->Err_0 == GlyphError::NoNextGlyph,
    {
        let ghost pool = all_coordinates@;
        let (cc_x, cc_y) = (prev.0, prev.1);
        let mut best: Option<usize> = None;
        let mut k: usize = 0;
        while k < all_coordinates.len()
            invariant
                pool == all_coordinates@,
                (cc_x, cc_y) == (prev.0, prev.1),
                k <= pool.len(),
                best is None ==> forall|j: int| 0 <= j < k ==> !in_quadrant(*self, prev, #[trigger] pool[j]),
                best is Some ==> is_next(*self, prev, pool.subrange(0, k as int), best->Some_0 as int),
            decreases pool.len() - k,
        {
            let (x, y) = (all_coordinates[k].0, all_coordinates[k].1);
            let inside = match self {
                Section::A => x <= cc_x && y >= cc_y,
                Section::B => x >= cc_x && y >= cc_y,
                Section::C => x >= cc_x && y <= cc_y,
                Section::D => x <= cc_x && y <= cc_y,
            };
            let ghost before = pool.subrange(0, k as int);
            let ghost after = pool.subrange(0, k + 1);
            assert(forall|j: int| 0 <= j < k ==> after[j] == before[j] && before[j] == pool[j]);
            assert(after[k as int] == pool[k as int]);
            match best {
                None => {
                    if inside {
                        best = Some(k);
                    }
                },
                Some(b) => {
                    let (bx, by) = (all_coordinates[b].0, all_coordinates[b].1);
                    let better = match self {
                        Section::A => y < by,
                        Section::B => x < bx,
                        Section::C => y > by,
                        Section::D => x > bx,
                    };
                    if inside && better {
                        best = Some(k);
                    }
                },
            }
            k += 1;
        }
        assert(pool.subrange(0, k as int) =~= pool);
        match best {
            Some(b) => {
                proof {
                    let i = choose|i: int| is_next(*self, prev, pool, i);
                    lemma_next_unique(*self, prev, pool, i, b as int);
                }
                Ok(all_coordinates[b])
            },
            None => {
                assert(!exists|i: int| is_next(*self, prev, pool, i));
                Err(GlyphError::NoNextGlyph)
            },
        }
    }
}

/// The pool without the glyph grown in it from `seed`.
pub open spec fn without_glyph(pool: Seq<Cell>, seed: Cell) -> Seq<Cell> {
    pool.filter(|c: Cell| !in_glyph(seq![seed], pool, c))
}

/// The state of the walk once glyph `n` is resolved: its seed, the pool it
/// was grown in, and the pool left after it. `None` once a search found no
/// next seed.
pub open spec fn walk_state(pool: Seq<Cell>, seed: Cell, n: nat, cadence: int) -> Option<
    (Cell, Seq<Cell>, Seq<Cell>),
>
    decreases n,
{
    if n == 0 {
        Some((seed, pool, without_glyph(pool, seed)))
    } else {
        match walk_state(pool, seed, (n - 1) as nat, cadence) {
            None => None,
            Some(st) => match next_seed(section_at(n as int, cadence), st.0, st.2) {
                None => None,
                Some(s2) => Some((s2, st.2, without_glyph(st.2, s2))),
            },
        }
    }
}

/// The cells of glyph `n` of the walk.
pub open spec fn walk_glyph(pool: Seq<Cell>, seed: Cell, n: nat, cadence: int, c: Cell) -> bool {
    let st = walk_state(pool, seed, n, cadence)->Some_0;
    in_glyph(seq![st.0], st.1, c)
}

proof fn lemma_walk_stops(pool: Seq<Cell>, seed: Cell, n: nat, m: nat, cadence: int)
    requires
        n <= m,
        walk_state(pool, seed, n, cadence) is None,
    ensures
        walk_state(pool, seed, m, cadence) is None,
    decreases m - n,
{
    if n < m {
        lemma_walk_stops(pool, seed, n, (m - 1) as nat, cadence);
    }
}

proof fn lemma_walk_goes_on(pool: Seq<Cell>, seed: Cell, n: nat, m: nat, cadence: int)
    requires
        m <= n,
        walk_state(pool, seed, n, cadence) is Some,
    ensures
        walk_state(pool, seed, m, cadence) is Some,
{
    if walk_state(pool, seed, m, cadence) is None {
        lemma_walk_stops(pool, seed, m, n, cadence);
    }
}

/// What is left of a walk's pool after glyph `n` is the pool's cells, in
/// their order, that no glyph up to `n` took.
pub proof fn lemma_walk_remaining(pool: Seq<Cell>, seed: Cell, n: nat, cadence: int, c: Cell)
    requires
        walk_state(pool, seed, n, cadence) is Some,
    ensures
        walk_state(pool, seed, n, cadence)->Some_0.2.contains(c) <==> pool.contains(c) && forall|m: nat|
            m <= n ==> !#[trigger] walk_glyph(pool, seed, m, cadence, c),
    decreases n,
{
    let st = walk_state(pool, seed, n, cadence)->Some_0;
    let f = |x: Cell| !in_glyph(seq![st.0], st.1, x);
    if n == 0 {
        lemma_filter_member(st.1, f, c);
        assert(st.2 == st.1.filter(f));
        assert(walk_glyph(pool, seed, 0, cadence, c) == !f(c));
        if st.2.contains(c) {
            assert forall|m: nat| m <= n implies !#[trigger] walk_glyph(pool, seed, m, cadence, c) by {
                assert(m == 0);
            }
        }
    } else {
        let m1 = (n - 1) as nat;
        lemma_walk_goes_on(pool, seed, n, m1, cadence);
        lemma_walk_remaining(pool, seed, m1, cadence, c);
        assert(st.1 == walk_state(pool, seed, m1, cadence)->Some_0.2);
        lemma_filter_member(st.1, f, c);
        if pool.contains(c) && forall|m: nat| m <= n ==> !#[trigger] walk_glyph(pool, seed, m, cadence, c) {
            assert(!walk_glyph(pool, seed, n, cadence, c));
            assert forall|m: nat| m <= m1 implies !#[trigger] walk_glyph(pool, seed, m, cadence, c) by {
                assert(m <= n);
            }
        }
        if st.2.contains(c) {
            assert forall|m: nat| m <= n implies !#[trigger] walk_glyph(pool, seed, m, cadence, c) by {
                if m < n {
                    assert(m <= m1);
                }
            }
        }
    }
}

/// When every cell of the pool belongs to one of the glyphs that a walk has
/// resolved, nothing is left of the pool.
pub proof fn lemma_pool_exhaustion(pool: Seq<Cell>, seed: Cell, n: nat, cadence: int)
    requires
        walk_state(pool, seed, n, cadence) is Some,
        forall|c: Cell|
            pool.contains(c) ==> exists|m: nat| m <= n && #[trigger] walk_glyph(pool, seed, m, cadence, c),
    ensures
        walk_state(pool, seed, n, cadence)->Some_0.2.len() == 0,
{
    let rem = walk_state(pool, seed, n, cadence)->Some_0.2;
    if rem.len() > 0 {
        let c = rem[0];
        assert(rem.contains(c));
        lemma_walk_remaining(pool, seed, n, cadence, c);
    }
}

/// The section of glyph `n` of the walk, for a section change every
/// `cadence` glyphs.
pub fn section_for(n: usize, cadence: usize) -> (r: Section)
    requires
        cadence > 0,
    ensures
        r == section_at(n as int, cadence as int),
{
    if n == 0 {
        return Section::A;
    }
    let q = ((n - 1) / cadence) % 4;
    if q == 0 {
        Section::A
    } else if q == 1 {
        Section::B
    } else if q == 2 {
        Section::C
    } else {
        Section::D
    }
}

/// The cells of `pool`, in order, that `gone` does not hold.
pub fn remove_cells(pool: &Vec<Cell>, gone: &Vec<Cell>) -> (r: Vec<Cell>)
    ensures
        r@ == pool@.filter(|c: Cell| !gone@.contains(c)),
{
    let ghost f = |c: Cell| !gone@.contains(c);
    let mut r: Vec<Cell> = Vec::new();
    let mut k: usize = 0;
    while k < pool.len()
        invariant
            k <= pool@.len(),
            f == (|c: Cell| !gone@.contains(c)),
            r@ == pool@.subrange(0, k as int).filter(f),
        decreases pool.len() - k,
    {
        let c = pool[k];
        proof {
            pool@.subrange(0, k as int).lemma_filter_push(c, f);
            assert(pool@.subrange(0, k + 1) =~= pool@.subrange(0, k as int).push(c));
        }
        if !contains_cell(gone, c) {
            r.push(c);
        }
        k += 1;
    }
    assert(pool@.subrange(0, k as int) =~= pool@);
    r
}

/// One glyph grown from `seed` in `pool`, and the pool left without it.
fn resolve_glyph(pool: &Vec<Cell>, seed: Cell) -> (r: (Vec<Cell>, Vec<Cell>))
    ensures
        r.0@.no_duplicates(),
        forall|c: Cell| r.0@.contains(c) <==> in_glyph(seq![seed], pool@, c),
        r.1@ == without_glyph(pool@, seed),
{
    let mut seeds: Vec<Cell> = Vec::new();
    seeds.push(seed);
    assert(seeds@ =~= seq![seed]);
    let glyph = analyze_character(crate::cell::copy_cells(pool), seeds);
    let rest = remove_cells(pool, &glyph);
    assert((|c: Cell| !glyph@.contains(c)) =~= (|c: Cell| !in_glyph(seq![seed], pool@, c)));
    (glyph, rest)
}

/// Resolves `count` glyphs around the ring. The first is grown from `seed`
/// in the whole pool; each later one is grown from the seed that its
/// section's search finds next to the previous seed, in what earlier glyphs
/// left of the pool. The section changes every `cadence` glyphs. Returns
/// the glyphs in walk order and what is left of the pool, or fails as soon
/// as a search finds no next seed.
pub fn walk_ring(pool: &Vec<Cell>, seed: Cell, count: usize, cadence: usize) -> (r: Result<
    (Vec<Vec<Cell>>, Vec<Cell>),
    GlyphError,
>)
    requires
        cadence > 0,
    ensures
        count == 0 ==> r is Ok && r->Ok_0.0@.len() == 0 && r->Ok_0.1@ == pool@,
        count > 0 ==> (r is Ok <==> walk_state(pool@, seed, (count - 1) as nat, cadence as int) is Some),
        count > 0 && r is Ok ==> {
            let glyphs = r->Ok_0.0@;
            &&& glyphs.len() == count
            &&& r->Ok_0.1@ == walk_state(pool@, seed, (count - 1) as nat, cadence as int)->Some_0.2
            &&& forall|n: int| 0 <= n < count ==> (#[trigger] glyphs[n])@.no_duplicates()
            &&& forall|n: int, c: Cell|
                0 <= n < count ==> (#[trigger] glyphs[n]@.contains(c) <==> walk_glyph(
                    pool@,
                    seed,
                    n as nat,
                    cadence as int,
                    c,
                ))
        },
        r is Err ==> r->Err_0 == GlyphError::NoNextGlyph,
{
    let mut glyphs: Vec<Vec<Cell>> = Vec::new();
    if count == 0 {
        return Ok((glyphs, crate::cell::copy_cells(pool)));
    }
    let (first, rest) = resolve_glyph(pool, seed);
    let mut remaining = rest;
    glyphs.push(first);
    let mut prev = seed;
    let mut n: usize = 1;
    while n < count
        invariant
            cadence > 0,
            1 <= n <= count,
            glyphs@.len() == n,
            walk_state(pool@, seed, (n - 1) as nat, cadence as int) == Some(
                (prev, walk_state(pool@, seed, (n - 1) as nat, cadence as int)->Some_0.1, remaining@),
            ),
            forall|m: int| 0 <= m < n ==> (#[trigger] glyphs@[m])@.no_duplicates(),
            forall|m: int, c: Cell|
                0 <= m < n ==> (#[trigger] glyphs@[m]@.contains(c) <==> walk_glyph(
                    pool@,
                    seed,
                    m as nat,
                    cadence as int,
                    c,
                )),
        decreases count - n,
    {
        let section = section_for(n, cadence);
        let next = match section.get_next(prev, &remaining) {
            Ok(c) => c,
            Err(e) => {
                proof {
                    lemma_walk_stops(pool@, seed, n as nat, (count - 1) as nat, cadence as int);
                }
                return Err(e);
            },
        };
        let (glyph, rest) = resolve_glyph(&remaining, next);
        let ghost before = glyphs@;
        glyphs.push(glyph);
        assert forall|m: int, c: Cell|
            0 <= m < n + 1 implies (#[trigger] glyphs@[m]@.contains(c) <==> walk_glyph(
            pool@,
            seed,
            m as nat,
            cadence as int,
            c,
        )) by {
            if m < n {
                assert(glyphs@[m] == before[m]);
            }
        }
        assert forall|m: int| 0 <= m < n + 1 implies (#[trigger] glyphs@[m])@.no_duplicates() by {
            if m < n {
                assert(glyphs@[m] == before[m]);
            }
        }
        remaining = rest;
        prev = next;
        n += 1;
    }
    Ok((glyphs, remaining))
}

} // verus!
