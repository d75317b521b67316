//! The drawing data as it stands in the page that carries it: the integers
//! of `Array(...)`, written in decimal and separated by commas.
use vstd::prelude::*;

verus! {

/// The bytes of `Array`.
pub open spec fn array_word() -> Seq<u8> {
    seq![65u8, 114u8, 114u8, 97u8, 121u8]
}

/// The bytes of `);`.
pub open spec fn close_word() -> Seq<u8> {
    seq![41u8, 59u8]
}

/// `pat` occurs in `s` at `i`.
pub open spec fn occurs_at(s: Seq<u8>, pat: Seq<u8>, i: int) -> bool {
    0 <= i && i + pat.len() <= s.len() && s.subrange(i, i + pat.len()) == pat
}

/// The first position at or after `from` where `pat` occurs in `s`.
pub open spec fn find_spec(s: Seq<u8>, pat: Seq<u8>, from: int) -> Option<int>
    decreases s.len() - from,
{
    if from < 0 || from >= s.len() || from + pat.len() > s.len() {
        None
    } else if occurs_at(s, pat, from) {
        Some(from)
    } else {
        find_spec(s, pat, from + 1)
    }
}

/// The comma-separated pieces of `s` (one empty piece for an empty `s`).
pub open spec fn pieces(s: Seq<u8>) -> Seq<Seq<u8>>
    decreases s.len(),
{
    if s.len() == 0 {
        seq![Seq::empty()]
    } else {
        let p = pieces(s.drop_last());
        if s.last() == 44u8 {
            p.push(Seq::empty())
        } else {
            p.update(p.len() - 1, p.last().push(s.last()))
        }
    }
}

pub open spec fn is_digit(b: u8) -> bool {
    48u8 <= b <= 57u8
}

/// The value of a string of decimal digits.
pub open spec fn digits_value(s: Seq<u8>) -> int
    decreases s.len(),
{
    if s.len() == 0 {
        0
    } else {
        digits_value(s.drop_last()) * 10 + (s.last() - 48u8)
    }
}

/// A non-empty run of decimal digits.
pub open spec fn is_digits(s: Seq<u8>) -> bool {
    s.len() > 0 && forall|i: int| 0 <= i < s.len() ==> is_digit(#[trigger] s[i])
}

/// The integer written in `s`: digits with an optional leading `+` or `-`.
pub open spec fn int_value(s: Seq<u8>) -> Option<int> {
    if s.len() > 0 && s[0] == 45u8 && is_digits(s.drop_first()) {
        Some(-digits_value(s.drop_first()))
    } else if s.len() > 0 && s[0] == 43u8 && is_digits(s.drop_first()) {
        Some(digits_value(s.drop_first()))
    } else if is_digits(s) {
        Some(digits_value(s))
    } else {
        None
    }
}

/// The 32-bit integer written in `s`, when there is one and it fits.
pub open spec fn parse_i32(s: Seq<u8>) -> Option<i32> {
    match int_value(s) {
        Some(v) => if i32::MIN <= v <= i32::MAX { Some(v as i32) } else { None },
        None => None,
    }
}

/// The integers written in `ps`, when every piece holds one.
pub open spec fn parse_all(ps: Seq<Seq<u8>>) -> Option<Seq<i32>> {
    if forall|i: int| 0 <= i < ps.len() ==> (#[trigger] parse_i32(ps[i])) is Some {
        Some(Seq::new(ps.len(), |i: int| parse_i32(ps[i])->Some_0))
    } else {
        None
    }
}

/// The drawing data of a page: the integers between `Array(` and the first
/// `);` after it.
pub open spec fn draw_data(page: Seq<u8>) -> Option<Seq<i32>> {
    match find_spec(page, array_word(), 0) {
        None => None,
        Some(i) => if i + 6 > page.len() {
            None
        } else {
            match find_spec(page, close_word(), i + 6) {
                None => None,
                Some(e) => parse_all(pieces(page.subrange(i + 6, e))),
            }
        },
    }
}

proof fn lemma_digits_nonneg(s: Seq<u8>)
    requires
        forall|i: int| 0 <= i < s.len() ==> is_digit(#[trigger] s[i]),
    ensures
        0 <= digits_value(s),
    decreases s.len(),
{
    if s.len() > 0 {
        assert(is_digit(s[s.len() - 1]));
        lemma_digits_nonneg(s.drop_last());
    }
}

proof fn lemma_digits_grow(s: Seq<u8>, n: int)
    requires
        0 <= n <= s.len(),
        forall|i: int| 0 <= i < s.len() ==> is_digit(#[trigger] s[i]),
    ensures
        digits_value(s.subrange(0, n)) <= digits_value(s),
    decreases s.len() - n,
{
    if n < s.len() {
        let t = s.subrange(0, n + 1);
        assert(t.drop_last() =~= s.subrange(0, n));
        assert(is_digit(s[n]));
        lemma_digits_nonneg(s.subrange(0, n));
        lemma_digits_grow(s, n + 1);
    } else {
        assert(s.subrange(0, n) =~= s);
    }
}

/// The 32-bit integer written in `s` (decimal digits, optionally signed).
pub fn parse_int(s: &Vec<u8>) -> (r: Option<i32>)
    ensures
        r == parse_i32(s@),
{
    let n = s.len();
    if n == 0 {
        return None;
    }
    let negative = s[0] == 45u8;
    let first: usize = if s[0] == 45u8 || s[0] == 43u8 { 1 } else { 0 };
    if first == n {
        assert(!is_digits(s@.drop_first()));
        return None;
    }
    let ghost body = s@.subrange(first as int, n as int);
    assert(first == 1 ==> body =~= s@.drop_first());
    assert(first == 0 ==> body =~= s@);
    let mut acc: i64 = 0;
    let mut k: usize = first;
    while k < n
        invariant
            first <= k <= n,
            first <= 1,
            first < n,
            n == s@.len(),
            body == s@.subrange(first as int, n as int),
            negative == (s@[0] == 45u8),
            first == 1 ==> body == s@.drop_first() && (s@[0] == 45u8 || s@[0] == 43u8),
            first == 0 ==> body == s@ && s@[0] != 45u8 && s@[0] != 43u8,
            forall|i: int| first <= i < k ==> is_digit(#[trigger] s@[i]),
            acc == digits_value(s@.subrange(first as int, k as int)),
            0 <= acc <= 2147483648,
        decreases n - k,
    {
        let b = s[k];
        if b < 48u8 || b > 57u8 {
            assert(!is_digit(body[k - first]));
            assert(!is_digits(body));
            if first == 1 {
                assert(!is_digit(s@[0]));
                assert(!is_digits(s@.drop_first()));
                assert(!is_digits(s@));
            }
            return None;
        }
        assert(s@.subrange(first as int, k + 1).drop_last() =~= s@.subrange(first as int, k as int));
        let next: i64 = acc * 10 + (b - 48u8) as i64;
        if next > 2147483648 {
            proof {
                if first == 1 {
                    assert(!is_digit(s@[0]));
                }
                if is_digits(body) {
                    assert(body.subrange(0, k + 1 - first) =~= s@.subrange(first as int, k + 1));
                    lemma_digits_grow(body, k + 1 - first);
                    assert(digits_value(body) > 2147483648);
                }
            }
            return None;
        }
        acc = next;
        k += 1;
    }
    assert(s@.subrange(first as int, k as int) =~= body);
    if negative {
        Some((-acc) as i32)
    } else if acc > 2147483647 {
        None
    } else {
        Some(acc as i32)
    }
}

proof fn lemma_pieces_step(s: Seq<u8>, b: u8)
    ensures
        pieces(s.push(b)).len() >= pieces(s).len(),
        forall|i: int| 0 <= i < pieces(s).len() - 1 ==> pieces(s.push(b))[i] == #[trigger] pieces(s)[i],
        b == 44u8 ==> pieces(s.push(b)) == pieces(s).push(Seq::empty()),
        b != 44u8 ==> pieces(s.push(b)) == pieces(s).update(pieces(s).len() - 1, pieces(s).last().push(b)),
{
    assert(s.push(b).drop_last() =~= s);
    lemma_pieces_nonempty(s);
}

proof fn lemma_pieces_nonempty(s: Seq<u8>)
    ensures
        pieces(s).len() >= 1,
    decreases s.len(),
{
    if s.len() > 0 {
        lemma_pieces_nonempty(s.drop_last());
    }
}

proof fn lemma_pieces_stable(s: Seq<u8>, t: Seq<u8>)
    ensures
        pieces(s + t).len() >= pieces(s).len(),
        forall|i: int| 0 <= i < pieces(s).len() - 1 ==> pieces(s + t)[i] == #[trigger] pieces(s)[i],
    decreases t.len(),
{
    if t.len() == 0 {
        assert(s + t =~= s);
    } else {
        let u = t.drop_last();
        lemma_pieces_stable(s, u);
        assert(s + t =~= (s + u).push(t.last()));
        lemma_pieces_step(s + u, t.last());
        lemma_pieces_nonempty(s);
    }
}

proof fn lemma_find_bounds(s: Seq<u8>, pat: Seq<u8>, from: int)
    ensures
        find_spec(s, pat, from) is Some ==> from <= find_spec(s, pat, from)->Some_0 && find_spec(
            s,
            pat,
            from,
        )->Some_0 + pat.len() <= s.len(),
    decreases s.len() - from,
{
    if !(from < 0 || from >= s.len() || from + pat.len() > s.len()) && !occurs_at(s, pat, from) {
        lemma_find_bounds(s, pat, from + 1);
    }
}

/// The first position at or after `from` where `pat` occurs in `s`.
fn find_from(s: &[u8], pat: &Vec<u8>, from: usize) -> (r: Option<usize>)
    requires
        pat@.len() > 0,
    ensures
        r is None <==> find_spec(s@, pat@, from as int) is None,
        r is Some ==> r->Some_0 as int == find_spec(s@, pat@, from as int)->Some_0,
        r is Some ==> from <= r->Some_0 && r->Some_0 + pat@.len() <= s@.len(),
{
    proof {
        lemma_find_bounds(s@, pat@, from as int);
    }
    let n = s.len();
    let mut i = from;
    while i < n && pat.len() <= n - i
        invariant
            n == s@.len(),
            from <= i,
            pat@.len() > 0,
            find_spec(s@, pat@, from as int) == find_spec(s@, pat@, i as int),
        decreases n - i,
    {
        let mut j: usize = 0;
        while j < pat.len() && s[i + j] == pat[j]
            invariant
                n == s@.len(),
                j <= pat@.len(),
                i + pat@.len() <= n,
                forall|m: int| 0 <= m < j ==> s@[i + m] == pat@[m],
            decreases pat.len() - j,
        {
            j += 1;
        }
        if j == pat.len() {
            assert(s@.subrange(i as int, i + pat@.len()) =~= pat@);
            return Some(i);
        }
        assert(s@.subrange(i as int, i + pat@.len())[j as int] != pat@[j as int]);
        i += 1;
    }
    None
}

/// The integers of the comma-separated list in `s[start..end]`, when every
/// piece of it holds one.
fn parse_list(s: &[u8], start: usize, end: usize) -> (r: Option<Vec<i32>>)
    requires
        start <= end <= s@.len(),
    ensures
        r is None <==> parse_all(pieces(s@.subrange(start as int, end as int))) is None,
        r is Some ==> r->Some_0@ == parse_all(pieces(s@.subrange(start as int, end as int)))->Some_0,
{
    let ghost full = s@.subrange(start as int, end as int);
    let mut out: Vec<i32> = Vec::new();
    let mut cur: Vec<u8> = Vec::new();
    let mut k: usize = start;
    assert(s@.subrange(start as int, start as int) =~= Seq::<u8>::empty());
    while k < end
        invariant
            start <= k <= end <= s@.len(),
            full == s@.subrange(start as int, end as int),
            pieces(s@.subrange(start as int, k as int)).len() >= 1,
            cur@ == pieces(s@.subrange(start as int, k as int)).last(),
            out@.len() == pieces(s@.subrange(start as int, k as int)).len() - 1,
            forall|i: int|
                0 <= i < out@.len() ==> parse_i32(#[trigger] pieces(s@.subrange(start as int, k as int))[i])
                    == Some(out@[i]),
        decreases end - k,
    {
        let ghost pre = s@.subrange(start as int, k as int);
        let b = s[k];
        assert(s@.subrange(start as int, k + 1) =~= pre.push(b));
        proof {
            lemma_pieces_step(pre, b);
        }
        if b == 44u8 {
            match parse_int(&cur) {
                Some(v) => {
                    out.push(v);
                },
                None => {
                    proof {
                        let rest = s@.subrange(k as int, end as int);
                        assert(full =~= pre + rest);
                        lemma_pieces_stable(pre.push(b), s@.subrange(k + 1, end as int));
                        assert(pre.push(b) + s@.subrange(k + 1, end as int) =~= full);
                        let idx = pieces(pre).len() - 1;
                        assert(pieces(pre.push(b))[idx] == cur@);
                        assert(pieces(full)[idx] == cur@);
                        assert(parse_i32(pieces(full)[idx]) is None);
                    }
                    return None;
                },
            }
            cur = Vec::new();
        } else {
            cur.push(b);
        }
        k += 1;
    }
    assert(s@.subrange(start as int, k as int) =~= full);
    match parse_int(&cur) {
        Some(v) => {
            out.push(v);
            let ghost ps = pieces(full);
            assert(forall|i: int| 0 <= i < ps.len() ==> (#[trigger] parse_i32(ps[i])) == Some(out@[i]));
            assert(out@ =~= Seq::new(ps.len(), |i: int| parse_i32(ps[i])->Some_0));
            Some(out)
        },
        None => {
            assert(parse_i32(pieces(full)[pieces(full).len() - 1]) is None);
            None
        },
    }
}

/// The drawing data of a page: the integers listed between `Array(` and
/// the first `);` after it. `None` when either mark is missing or a piece
/// of the list is not a 32-bit decimal integer.
pub fn extract_draw_data(page: &[u8]) -> (r: Option<Vec<i32>>)
    ensures
        r is None <==> draw_data(page@) is None,
        r is Some ==> r->Some_0@ == draw_data(page@)->Some_0,
{
    let array_pat: Vec<u8> = vec![65u8, 114u8, 114u8, 97u8, 121u8];
    let close_pat: Vec<u8> = vec![41u8, 59u8];
    assert(array_pat@ =~= array_word());
    assert(close_pat@ =~= close_word());
    let i = match find_from(page, &array_pat, 0) {
        Some(i) => i,
        None => return None,
    };
    if i > page.len() || page.len() - i < 6 {
        return None;
    }
    let e = match find_from(page, &close_pat, i + 6) {
        Some(e) => e,
        None => return None,
    };
    parse_list(page, i + 6, e)
}

} // verus!
