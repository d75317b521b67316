//! Classification of a resolved glyph into one of the sixteen characters.
use vstd::prelude::*;
use crate::cell::{Cell, Coordinates, copy_cells, is_arc_cell};
use crate::error::GlyphError;
use crate::walker::{Section, section_at, section_for};

verus! {

broadcast use vstd::seq_lib::group_filter_ensures;

/// The sixteen characters a glyph can stand for.
#[derive(Debug, Clone, Copy, PartialEq, Eq, Structural)]
pub enum CharacterID {
    A,
    B,
    C,
    D,
    E,
    F,
    Zero,
    One,
    Two,
    Three,
    Four,
    Five,
    Six,
    Seven,
    Eight,
    Nine,
}

/// A classified glyph: its identity and the symbol it is written with.
#[derive(Debug)]
pub struct Character {
    pub id: CharacterID,
    pub val: String,
}

/// What a classification rule looks at.
pub struct CharParams {
    pub coordinates_vec: Vec<Cell>,
    pub angle: i32,
    pub section: Section,
}

/// A resolved glyph with the context needed to classify it.
pub struct Analyze {
    pub coordinates_vec: Vec<Cell>,
    pub coordinates_angle: i32,
    pub section: Section,
}

pub open spec fn symbol(id: CharacterID) -> Seq<char> {
    match id {
        CharacterID::A => "A"@,
        CharacterID::B => "B"@,
        CharacterID::C => "C"@,
        CharacterID::D => "D"@,
        CharacterID::E => "E"@,
        CharacterID::F => "F"@,
        CharacterID::Zero => "0"@,
        CharacterID::One => "1"@,
        CharacterID::Two => "2"@,
        CharacterID::Three => "3"@,
        CharacterID::Four => "4"@,
        CharacterID::Five => "5"@,
        CharacterID::Six => "6"@,
        CharacterID::Seven => "7"@,
        CharacterID::Eight => "8"@,
        CharacterID::Nine => "9"@,
    }
}

impl CharacterID {
    /// The symbol this character is written with.
    pub fn symbol(&self) -> (r: String)
        ensures
            r@ == symbol(*self),
    {
        match self {
            CharacterID::A => "A".to_owned(),
            CharacterID::B => "B".to_owned(),
            CharacterID::C => "C".to_owned(),
            CharacterID::D => "D".to_owned(),
            CharacterID::E => "E".to_owned(),
            CharacterID::F => "F".to_owned(),
            CharacterID::Zero => "0".to_owned(),
            CharacterID::One => "1".to_owned(),
            CharacterID::Two => "2".to_owned(),
            CharacterID::Three => "3".to_owned(),
            CharacterID::Four => "4".to_owned(),
            CharacterID::Five => "5".to_owned(),
            CharacterID::Six => "6".to_owned(),
            CharacterID::Seven => "7".to_owned(),
            CharacterID::Eight => "8".to_owned(),
            CharacterID::Nine => "9".to_owned(),
        }
    }
}

/// The coordinate of `c` along y, or along x.
pub open spec fn key(c: Cell, on_y: bool) -> int {
    if on_y { c.1 as int } else { c.0 as int }
}

/// The highest (or lowest) coordinate of the cells of `s` along one axis.
pub open spec fn key_ext(s: Seq<Cell>, on_y: bool, highest: bool) -> int
    decreases s.len(),
{
    if s.len() <= 1 {
        if s.len() == 0 { 0 } else { key(s[0], on_y) }
    } else {
        let rest = key_ext(s.drop_last(), on_y, highest);
        let k = key(s.last(), on_y);
        if highest {
            if k > rest { k } else { rest }
        } else {
            if k < rest { k } else { rest }
        }
    }
}

/// The cells of `s`, in order, that reach the extreme coordinate.
pub open spec fn extremal_cells(s: Seq<Cell>, on_y: bool, highest: bool) -> Seq<Cell> {
    s.filter(|c: Cell| key(c, on_y) == key_ext(s, on_y, highest))
}

/// The reference cells of a glyph: `(bottom, top)`, where bottom is the first
/// cell farthest from the centre of the ring in the glyph's section and top
/// the first cell nearest to it.
pub open spec fn bottom_top(s: Seq<Cell>, section: Section) -> (Cell, Cell) {
    match section {
        Section::A => (extremal_cells(s, true, true)[0], extremal_cells(s, true, false)[0]),
        Section::B => (extremal_cells(s, false, true)[0], extremal_cells(s, false, false)[0]),
        Section::C => (extremal_cells(s, true, false)[0], extremal_cells(s, true, true)[0]),
        Section::D => (extremal_cells(s, false, false)[0], extremal_cells(s, false, true)[0]),
    }
}

/// Cell `i` lies on an ascending stroke through the reference cell `r`.
pub open spec fn pos_gradient(i: Cell, r: Cell) -> bool {
    &&& i.0 < r.0 + r.2
    &&& i.0 > r.0 - i.2
    &&& i.1 < r.1 + r.3
    &&& i.1 > r.1 - i.3
}

/// Cell `i` lies on a descending stroke through the reference cell `r`.
/// The test is, for now, the same as the ascending one; the two are kept
/// apart because the rules name them apart.
pub open spec fn neg_gradient(i: Cell, r: Cell) -> bool {
    &&& i.0 < r.0 + r.2
    &&& i.0 > r.0 - i.2
    &&& i.1 < r.1 + r.3
    &&& i.1 > r.1 - i.3
}

pub open spec fn any_pos(s: Seq<Cell>, r: Cell) -> bool {
    exists|k: int| 0 <= k < s.len() && pos_gradient(#[trigger] s[k], r)
}

pub open spec fn any_neg(s: Seq<Cell>, r: Cell) -> bool {
    exists|k: int| 0 <= k < s.len() && neg_gradient(#[trigger] s[k], r)
}

pub open spec fn count_neg(s: Seq<Cell>, r: Cell) -> nat {
    s.filter(|c: Cell| neg_gradient(c, r)).len()
}

/// The decision among the straight-stroke characters A, E, F, 1, 7 and 4.
pub open spec fn no_arcs_spec(s: Seq<Cell>, section: Section) -> Option<CharacterID> {
    if s.len() == 0 {
        None
    } else {
        let (bottom, top) = bottom_top(s, section);
        if any_pos(s, bottom) {
            if any_neg(s, top) { Some(CharacterID::One) } else { Some(CharacterID::E) }
        } else if any_pos(s, top) {
            if any_neg(s, top) { Some(CharacterID::Seven) } else { Some(CharacterID::F) }
        } else if count_neg(s, top) == 2 {
            Some(CharacterID::A)
        } else {
            Some(CharacterID::Four)
        }
    }
}

/// The glyph holds at least one arc cell.
pub open spec fn has_arc(s: Seq<Cell>, arcs: Seq<Cell>) -> bool {
    exists|k: int| 0 <= k < s.len() && is_arc_cell(#[trigger] s[k], arcs)
}

/// The rule for 2, 3 and 5. It is not worked out yet and accepts every
/// glyph as zero.
pub open spec fn two_three_or_five_spec(s: Seq<Cell>) -> Option<CharacterID> {
    Some(CharacterID::Zero)
}

/// The rule for 6, 8 and 9; not worked out yet, it accepts every glyph as zero.
pub open spec fn six_eight_or_nine_spec(s: Seq<Cell>) -> Option<CharacterID> {
    Some(CharacterID::Zero)
}

/// The rule for B, D and C; not worked out yet, it accepts every glyph as zero.
pub open spec fn b_d_or_c_spec(s: Seq<Cell>) -> Option<CharacterID> {
    Some(CharacterID::Zero)
}

/// The rule for 0; not worked out yet, it accepts every glyph.
pub open spec fn zero_spec(s: Seq<Cell>) -> Option<CharacterID> {
    Some(CharacterID::Zero)
}

/// The curve-bearing rules tried in their fixed order: the first that
/// matches decides.
pub open spec fn curve_spec(s: Seq<Cell>) -> Option<CharacterID> {
    if two_three_or_five_spec(s) is Some {
        two_three_or_five_spec(s)
    } else if six_eight_or_nine_spec(s) is Some {
        six_eight_or_nine_spec(s)
    } else if b_d_or_c_spec(s) is Some {
        b_d_or_c_spec(s)
    } else {
        zero_spec(s)
    }
}

/// What a glyph is classified as: among the curve-bearing characters when it
/// holds an arc cell, else among the straight-stroke ones.
pub open spec fn classify(s: Seq<Cell>, section: Section, arcs: Seq<Cell>) -> Option<CharacterID> {
    if has_arc(s, arcs) {
        curve_spec(s)
    } else {
        no_arcs_spec(s, section)
    }
}

proof fn lemma_key_ext_attained(s: Seq<Cell>, on_y: bool, highest: bool)
    requires
        s.len() > 0,
    ensures
        exists|i: int| 0 <= i < s.len() && key(#[trigger] s[i], on_y) == key_ext(s, on_y, highest),
        forall|i: int|
            0 <= i < s.len() ==> (if highest {
                key(#[trigger] s[i], on_y) <= key_ext(s, on_y, highest)
            } else {
                key(s[i], on_y) >= key_ext(s, on_y, highest)
            }),
    decreases s.len(),
{
    if s.len() == 1 {
        assert(key(s[0], on_y) == key_ext(s, on_y, highest));
    } else {
        let t = s.drop_last();
        lemma_key_ext_attained(t, on_y, highest);
        let i0 = choose|i: int| 0 <= i < t.len() && key(#[trigger] t[i], on_y) == key_ext(t, on_y, highest);
        if key_ext(s, on_y, highest) == key(s.last(), on_y) {
            assert(key(s[s.len() - 1], on_y) == key_ext(s, on_y, highest));
        } else {
            assert(key(s[i0], on_y) == key_ext(s, on_y, highest));
        }
        assert forall|i: int| 0 <= i < s.len() implies (if highest {
            key(#[trigger] s[i], on_y) <= key_ext(s, on_y, highest)
        } else {
            key(s[i], on_y) >= key_ext(s, on_y, highest)
        }) by {
            if i < s.len() - 1 {
                assert(s[i] == t[i]);
            }
        }
    }
}

pub(crate) proof fn lemma_extremal_nonempty(s: Seq<Cell>, on_y: bool, highest: bool)
    requires
        s.len() > 0,
    ensures
        extremal_cells(s, on_y, highest).len() > 0,
{
    lemma_key_ext_attained(s, on_y, highest);
    let i = choose|i: int| 0 <= i < s.len() && key(#[trigger] s[i], on_y) == key_ext(s, on_y, highest);
    assert(extremal_cells(s, on_y, highest).contains(s[i]));
}

/// The highest (or lowest) coordinate of the cells along y (or x).
pub(crate) fn extreme_key(cells: &Vec<Cell>, on_y: bool, highest: bool) -> (r: i32)
    requires
        cells@.len() > 0,
    ensures
        r == key_ext(cells@, on_y, highest),
{
    let mut r: i32 = if on_y { cells[0].1 } else { cells[0].0 };
    let mut k: usize = 1;
    assert(cells@.subrange(0, 1).drop_last().len() == 0);
    while k < cells.len()
        invariant
            1 <= k <= cells@.len(),
            r == key_ext(cells@.subrange(0, k as int), on_y, highest),
        decreases cells.len() - k,
    {
        let v = if on_y { cells[k].1 } else { cells[k].0 };
        assert(cells@.subrange(0, k + 1).drop_last() =~= cells@.subrange(0, k as int));
        if (highest && v > r) || (!highest && v < r) {
            r = v;
        }
        k += 1;
    }
    assert(cells@.subrange(0, k as int) =~= cells@);
    r
}

/// The cells, in order, whose coordinate along y (or x) is `v`.
pub(crate) fn cells_with_key(cells: &Vec<Cell>, on_y: bool, v: i32) -> (r: Vec<Cell>)
    ensures
        r@ == cells@.filter(|c: Cell| key(c, on_y) == v),
{
    let ghost f = |c: Cell| key(c, on_y) == v;
    let mut r: Vec<Cell> = Vec::new();
    let mut k: usize = 0;
    while k < cells.len()
        invariant
            k <= cells@.len(),
            f == (|c: Cell| key(c, on_y) == v),
            r@ == cells@.subrange(0, k as int).filter(f),
        decreases cells.len() - k,
    {
        let c = cells[k];
        proof {
            cells@.subrange(0, k as int).lemma_filter_push(c, f);
            assert(cells@.subrange(0, k + 1) =~= cells@.subrange(0, k as int).push(c));
        }
        if (on_y && c.1 == v) || (!on_y && c.0 == v) {
            r.push(c);
        }
        k += 1;
    }
    assert(cells@.subrange(0, k as int) =~= cells@);
    r
}

/// Whether some cell lies on an ascending stroke through `r`.
fn any_positive_gradient(cells: &Vec<Cell>, r: Cell) -> (b: bool)
    ensures
        b == any_pos(cells@, r),
{
    let mut found = false;
    let mut k: usize = 0;
    while k < cells.len()
        invariant
            k <= cells@.len(),
            found == exists|j: int| 0 <= j < k && pos_gradient(#[trigger] cells@[j], r),
        decreases cells.len() - k,
    {
        if Analyze::positive_gradient(&cells[k], r) {
            found = true;
        }
        k += 1;
    }
    found
}

/// Whether some cell lies on a descending stroke through `r`.
fn any_negative_gradient(cells: &Vec<Cell>, r: Cell) -> (b: bool)
    ensures
        b == any_neg(cells@, r),
{
    let mut k: usize = 0;
    while k < cells.len()
        invariant
            k <= cells@.len(),
            forall|j: int| 0 <= j < k ==> !neg_gradient(#[trigger] cells@[j], r),
        decreases cells.len() - k,
    {
        if Analyze::negative_gradient(&cells[k], r) {
            assert(neg_gradient(cells@[k as int], r));
            return true;
        }
        k += 1;
    }
    false
}

/// How many cells lie on a descending stroke through `r`.
fn count_negative_gradient(cells: &Vec<Cell>, r: Cell) -> (n: usize)
    ensures
        n == count_neg(cells@, r),
{
    let ghost f = |c: Cell| neg_gradient(c, r);
    let mut n: usize = 0;
    let mut k: usize = 0;
    while k < cells.len()
        invariant
            k <= cells@.len(),
            f == (|c: Cell| neg_gradient(c, r)),
            n == cells@.subrange(0, k as int).filter(f).len(),
            n <= k,
        decreases cells.len() - k,
    {
        proof {
            cells@.subrange(0, k as int).lemma_filter_push(cells@[k as int], f);
            assert(cells@.subrange(0, k + 1) =~= cells@.subrange(0, k as int).push(cells@[k as int]));
        }
        if Analyze::negative_gradient(&cells[k], r) {
            n += 1;
        }
        k += 1;
    }
    assert(cells@.subrange(0, k as int) =~= cells@);
    n
}

impl Analyze {
    /// Whether cell `i` lies on an ascending stroke through `coords`.
    fn positive_gradient(i: &Cell, coords: Cell) -> (b: bool)
        ensures
            b == pos_gradient(*i, coords),
    {
        let (cc_x, cc_y, cc_w, cc_h) = (i.0 as i64, i.1 as i64, i.2 as i64, i.3 as i64);
        let (x, y, w, h) = (coords.0 as i64, coords.1 as i64, coords.2 as i64, coords.3 as i64);
        cc_x < x + w && cc_x > x - cc_w && cc_y < y + h && cc_y > y - cc_h
    }

    /// Whether cell `i` lies on a descending stroke through `coords`.
    fn negative_gradient(i: &Cell, coords: Cell) -> (b: bool)
        ensures
            b == neg_gradient(*i, coords),
    {
        let (cc_x, cc_y, cc_w, cc_h) = (i.0 as i64, i.1 as i64, i.2 as i64, i.3 as i64);
        let (x, y, w, h) = (coords.0 as i64, coords.1 as i64, coords.2 as i64, coords.3 as i64);
        cc_x < x + w && cc_x > x - cc_w && cc_y < y + h && cc_y > y - cc_h
    }

    /// The cells with the highest x, the lowest x, the highest y and the
    /// lowest y, each list in the glyph's order.
    fn general_initialization_variables(params: &CharParams) -> (r: (
        Vec<Cell>,
        Vec<Cell>,
        Vec<Cell>,
        Vec<Cell>,
    ))
        requires
            params.coordinates_vec@.len() > 0,
        ensures
            r.0@ == extremal_cells(params.coordinates_vec@, false, true),
            r.1@ == extremal_cells(params.coordinates_vec@, false, false),
            r.2@ == extremal_cells(params.coordinates_vec@, true, true),
            r.3@ == extremal_cells(params.coordinates_vec@, true, false),
    {
        let cells = &params.coordinates_vec;
        let highest_x = extreme_key(cells, false, true);
        let highest_x_coords = cells_with_key(cells, false, highest_x);
        let lowest_x = extreme_key(cells, false, false);
        let lowest_x_coords = cells_with_key(cells, false, lowest_x);
        let highest_y = extreme_key(cells, true, true);
        let highest_y_coords = cells_with_key(cells, true, highest_y);
        let lowest_y = extreme_key(cells, true, false);
        let lowest_y_coords = cells_with_key(cells, true, lowest_y);
        (highest_x_coords, lowest_x_coords, highest_y_coords, lowest_y_coords)
    }

    /// The reference cells of the glyph as `(top, bottom)`; which extreme
    /// serves as bottom depends on the section (highest y in A, highest x in
    /// B, lowest y in C, lowest x in D), and top is the opposite extreme.
    fn get_top_and_bottom_coords(params: &CharParams) -> (r: (Cell, Cell))
        requires
            params.coordinates_vec@.len() > 0,
        ensures
            r.0 == bottom_top(params.coordinates_vec@, params.section).1,
            r.1 == bottom_top(params.coordinates_vec@, params.section).0,
    {
        proof {
            lemma_extremal_nonempty(params.coordinates_vec@, false, true);
            lemma_extremal_nonempty(params.coordinates_vec@, false, false);
            lemma_extremal_nonempty(params.coordinates_vec@, true, true);
            lemma_extremal_nonempty(params.coordinates_vec@, true, false);
        }
        let (highest_x_coords, lowest_x_coords, highest_y_coords, lowest_y_coords) =
            Self::general_initialization_variables(params);
        match params.section {
            Section::A => (lowest_y_coords[0], highest_y_coords[0]),
            Section::B => (lowest_x_coords[0], highest_x_coords[0]),
            Section::C => (highest_y_coords[0], lowest_y_coords[0]),
            Section::D => (highest_x_coords[0], lowest_x_coords[0]),
        }
    }

    /// Decides among A, E, F, 1, 7 and 4, the characters drawn without
    /// curves. Every cell is tested against the bottom reference cell for an
    /// ascending stroke: if one is found the glyph is 1 or E, told apart by a
    /// descending stroke through the top cell. Otherwise an ascending stroke
    /// through the top cell makes it 7 or F, told apart the same way. Failing
    /// both, an ascending stroke through the top is asked for once more (an
    /// A; it cannot be found at this point), then exactly two descending
    /// strokes through the top make an A, any other count a 4. An empty
    /// glyph matches nothing.
    fn no_arcs(params: &CharParams) -> (r: Option<CharacterID>)
        ensures
            r == no_arcs_spec(params.coordinates_vec@, params.section),
    {
        if params.coordinates_vec.len() == 0 {
            return None;
        }
        let cells = &params.coordinates_vec;
        let (top_coords, bottom_coords) = Self::get_top_and_bottom_coords(params);
        if any_positive_gradient(cells, bottom_coords) {
            if any_negative_gradient(cells, top_coords) {
                Some(CharacterID::One)
            } else {
                Some(CharacterID::E)
            }
        } else if any_positive_gradient(cells, top_coords) {
            if any_negative_gradient(cells, top_coords) {
                Some(CharacterID::Seven)
            } else {
                Some(CharacterID::F)
            }
        } else if any_positive_gradient(cells, top_coords) {
            Some(CharacterID::A)
        } else if count_negative_gradient(cells, top_coords) == 2 {
            Some(CharacterID::A)
        } else {
            Some(CharacterID::Four)
        }
    }

    /// Classifies the glyph. When one of its cells is an arc cell (a unit
    /// cell at the origin of a sample in `arcs`), the rules for the
    /// curve-bearing characters are tried in their fixed order; otherwise
    /// the decision among the straight-stroke characters is made. The first
    /// rule that matches decides; when none does, the classification fails.
    pub fn identify_char(&self, arcs: Vec<Cell>) -> (r: Result<Character, GlyphError>)
        ensures
            classify(self.coordinates_vec@, self.section, arcs@) is Some ==> r is Ok
                && r->Ok_0.id == classify(self.coordinates_vec@, self.section, arcs@)->Some_0
                && r->Ok_0.val@ == symbol(r->Ok_0.id),
            classify(self.coordinates_vec@, self.section, arcs@) is None ==> r is Err
                && r->Err_0 == GlyphError::ClassificationFailed,
    {
        let cells = &self.coordinates_vec;
        let mut arcs_present = false;
        let mut k: usize = 0;
        while k < cells.len()
            invariant
                k <= cells@.len(),
                arcs_present == exists|j: int| 0 <= j < k && is_arc_cell(#[trigger] cells@[j], arcs@),
            decreases cells.len() - k,
        {
            let coordinates = Coordinates::new(cells[k]);
            if coordinates.is_arc_among(&arcs) {
                arcs_present = true;
            }
            k += 1;
        }
        let params = CharParams {
            coordinates_vec: copy_cells(&self.coordinates_vec),
            angle: self.coordinates_angle,
            section: self.section,
        };
        assert(params.coordinates_vec@ == self.coordinates_vec@);
        let found = if arcs_present {
            let mut found = Self::is_two_three_or_five(&params);
            if found.is_none() {
                found = Self::is_six_eight_or_nine(&params);
            }
            if found.is_none() {
                found = Self::is_b_d_or_c(&params);
            }
            if found.is_none() {
                found = Self::is_zero(&params);
            }
            found
        } else {
            Self::no_arcs(&params)
        };
        match found {
            Some(id) => Ok(Character { id, val: id.symbol() }),
            None => Err(GlyphError::ClassificationFailed),
        }
    }

    /// The rule for 0; not worked out yet.
    fn is_zero(params: &CharParams) -> (r: Option<CharacterID>)
        ensures
            r == zero_spec(params.coordinates_vec@),
    {
        Some(CharacterID::Zero)
    }

    /// The rule for 2, 3 and 5; not worked out yet.
    fn is_two_three_or_five(params: &CharParams) -> (r: Option<CharacterID>)
        ensures
            r == two_three_or_five_spec(params.coordinates_vec@),
    {
        Some(CharacterID::Zero)
    }

    /// The rule for B, D and C; not worked out yet.
    fn is_b_d_or_c(params: &CharParams) -> (r: Option<CharacterID>)
        ensures
            r == b_d_or_c_spec(params.coordinates_vec@),
    {
        Some(CharacterID::Zero)
    }

    /// The rule for 6, 8 and 9; not worked out yet.
    fn is_six_eight_or_nine(params: &CharParams) -> (r: Option<CharacterID>)
        ensures
            r == six_eight_or_nine_spec(params.coordinates_vec@),
    {
        Some(CharacterID::Zero)
    }
}

/// The characters of the glyphs of a walk, in walk order: glyph `n` is
/// classified in the section it was found in, with `arcs` telling its arc
/// cells. A glyph that no rule identifies stays `None`, to be looked at by
/// hand. The angle of a glyph is not read by the rules and is passed as 0.
pub fn classify_ring(glyphs: &Vec<Vec<Cell>>, arcs: &Vec<Cell>, cadence: usize) -> (r: Vec<Option<CharacterID>>)
    requires
        cadence > 0,
    ensures
        r@.len() == glyphs@.len(),
        forall|n: int|
            0 <= n < glyphs@.len() ==> #[trigger] r@[n] == classify(
                glyphs@[n]@,
                section_at(n, cadence as int),
                arcs@,
            ),
{
    let mut r: Vec<Option<CharacterID>> = Vec::new();
    let mut n: usize = 0;
    while n < glyphs.len()
        invariant
            cadence > 0,
            n <= glyphs@.len(),
            r@.len() == n,
            forall|m: int|
                0 <= m < n ==> #[trigger] r@[m] == classify(glyphs@[m]@, section_at(m, cadence as int), arcs@),
        decreases glyphs.len() - n,
    {
        let glyph = Analyze {
            coordinates_vec: copy_cells(&glyphs[n]),
            coordinates_angle: 0,
            section: section_for(n, cadence),
        };
        let id = match glyph.identify_char(copy_cells(arcs)) {
            Ok(character) => Some(character.id),
            Err(_) => None,
        };
        r.push(id);
        n += 1;
    }
    r
}

} // verus!
