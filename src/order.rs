//! Canonical hue order of a palette.
use vstd::prelude::*;
use vstd::multiset::Multiset;
use crate::color::Color;
use crate::hsv::{max3, min3, max_of, min_of};

verus! {

/// Hue as a fraction `num / den` of sixths of the color wheel, in [0, 6);
/// a gray has hue 0.
pub open spec fn hue(c: Color) -> (int, int) {
    let hi = max3(c) as int;
    let lo = min3(c) as int;
    let d = hi - lo;
    if d == 0 {
        (0, 1)
    } else if c.0 as int == hi {
        let n = c.1 as int - c.2 as int;
        (if n < 0 {
            n + 6 * d
        } else {
            n
        }, d)
    } else if c.1 as int == hi {
        (c.2 as int - c.0 as int + 2 * d, d)
    } else {
        (c.0 as int - c.1 as int + 4 * d, d)
    }
}

/// The hue of `a` is at most that of `b`.
pub open spec fn hue_le(a: Color, b: Color) -> bool {
    hue(a).0 * hue(b).1 <= hue(b).0 * hue(a).1
}

/// Puts `c` after the last entry of `t`, walking back over entries of
/// greater hue: an entry of equal hue stays in front of it.
pub open spec fn insert_by_hue(t: Seq<Color>, c: Color) -> Seq<Color>
    decreases t.len(),
{
    if t.len() == 0 {
        seq![c]
    } else if hue_le(t.last(), c) {
        t.push(c)
    } else {
        insert_by_hue(t.drop_last(), c).push(t.last())
    }
}

/// Stable sort by ascending hue: colors of equal hue keep their relative order.
pub open spec fn hue_sorted(s: Seq<Color>) -> Seq<Color>
    decreases s.len(),
{
    if s.len() == 0 {
        Seq::empty()
    } else {
        insert_by_hue(hue_sorted(s.drop_last()), s.last())
    }
}

/// Every entry's hue is at most the next one's.
pub open spec fn hue_ascending(s: Seq<Color>) -> bool {
    forall|i: int| 0 < i < s.len() ==> #[trigger] hue_le(s[i - 1], s[i])
}

fn hue_key(c: Color) -> (r: (u32, u32))
    ensures
        r.0 as int == hue(c).0,
        r.1 as int == hue(c).1,
        0 <= r.0 < 1530,
        0 < r.1 <= 255,
{
    let hi = max_of(c);
    let lo = min_of(c);
    let d = (hi - lo) as u32;
    if d == 0 {
        (0, 1)
    } else if c.0 == hi {
        if c.1 < c.2 {
            (6 * d - (c.2 - c.1) as u32, d)
        } else {
            ((c.1 - c.2) as u32, d)
        }
    } else if c.1 == hi {
        (2 * d + c.2 as u32 - c.0 as u32, d)
    } else {
        (4 * d + c.0 as u32 - c.1 as u32, d)
    }
}

fn hue_greater(a: Color, b: Color) -> (r: bool)
    ensures
        r == !hue_le(a, b),
{
    let ka = hue_key(a);
    let kb = hue_key(b);
    assert(ka.0 * kb.1 < 1530 * 256 && kb.0 * ka.1 < 1530 * 256) by (nonlinear_arith)
        requires
            ka.0 < 1530,
            kb.0 < 1530,
            ka.1 <= 255,
            kb.1 <= 255,
    ;
    ka.0 * kb.1 > kb.0 * ka.1
}

proof fn lemma_insert_at(t: Seq<Color>, c: Color, k: int)
    requires
        0 <= k <= t.len(),
        forall|j: int| k <= j < t.len() ==> !hue_le(#[trigger] t[j], c),
        k > 0 ==> hue_le(t[k - 1], c),
    ensures
        insert_by_hue(t, c) == t.insert(k, c),
    decreases t.len(),
{
    if t.len() == 0 {
        assert(t.insert(k, c) =~= seq![c]);
    } else if k == t.len() {
        assert(t.insert(k, c) =~= t.push(c));
    } else {
        let u = t.drop_last();
        assert(!hue_le(t[t.len() - 1], c));
        assert forall|j: int| k <= j < u.len() implies !hue_le(#[trigger] u[j], c) by {
            assert(u[j] == t[j]);
        }
        lemma_insert_at(u, c, k);
        assert(u.insert(k, c).push(t.last()) =~= t.insert(k, c));
    }
}

proof fn lemma_insert_sorted(t: Seq<Color>, x: Color)
    requires
        hue_ascending(t),
    ensures
        hue_ascending(insert_by_hue(t, x)),
        insert_by_hue(t, x).to_multiset() == t.to_multiset().insert(x),
        insert_by_hue(t, x).last() == x || (t.len() > 0 && insert_by_hue(t, x).last()
            == t.last()),
    decreases t.len(),
{
    broadcast use vstd::seq_lib::group_to_multiset_ensures;

    if t.len() == 0 {
        assert(seq![x] =~= Seq::<Color>::empty().push(x));
        assert(Seq::<Color>::empty().to_multiset() =~= Multiset::empty());
    } else if hue_le(t.last(), x) {
        let r = t.push(x);
        assert forall|i: int| 0 < i < r.len() implies #[trigger] hue_le(r[i - 1], r[i]) by {
            if i < t.len() {
                assert(hue_le(t[i - 1], t[i]));
            }
        }
    } else {
        let u = t.drop_last();
        assert forall|i: int| 0 < i < u.len() implies #[trigger] hue_le(u[i - 1], u[i]) by {
            assert(hue_le(t[i - 1], t[i]));
        }
        lemma_insert_sorted(u, x);
        let ru = insert_by_hue(u, x);
        let r = ru.push(t.last());
        if u.len() > 0 && ru.last() == u.last() {
            assert(hue_le(t[t.len() - 2], t[t.len() - 1]));
        }
        assert forall|i: int| 0 < i < r.len() implies #[trigger] hue_le(r[i - 1], r[i]) by {
            if i < ru.len() {
                assert(hue_le(ru[i - 1], ru[i]));
            }
        }
        assert(u.push(t.last()) =~= t);
    }
}

/// The hue sort's result ascends in hue and holds the same colors, each as
/// often, as its input.
pub proof fn lemma_hue_sorted_ascending(s: Seq<Color>)
    ensures
        hue_ascending(hue_sorted(s)),
        hue_sorted(s).to_multiset() == s.to_multiset(),
    decreases s.len(),
{
    broadcast use vstd::seq_lib::group_to_multiset_ensures;

    if s.len() == 0 {
        assert(hue_sorted(s) =~= s);
    } else {
        lemma_hue_sorted_ascending(s.drop_last());
        lemma_insert_sorted(hue_sorted(s.drop_last()), s.last());
        assert(s.drop_last().push(s.last()) =~= s);
    }
}

/// `a` and `b` have the same hue.
pub open spec fn same_hue(a: Color, b: Color) -> bool {
    hue_le(a, b) && hue_le(b, a)
}

/// The colors of `s` whose hue equals that of `x`, in order.
pub open spec fn hue_class(s: Seq<Color>, x: Color) -> Seq<Color> {
    s.filter(|y: Color| same_hue(y, x))
}

proof fn lemma_hue_parts(c: Color)
    ensures
        hue(c).0 >= 0,
        hue(c).1 > 0,
{
}

proof fn lemma_hue_le_transitive(a: Color, b: Color, c: Color)
    requires
        hue_le(a, b),
        hue_le(b, c),
    ensures
        hue_le(a, c),
{
    lemma_hue_parts(a);
    lemma_hue_parts(b);
    lemma_hue_parts(c);
    let (an, ad) = hue(a);
    let (bn, bd) = hue(b);
    let (cn, cd) = hue(c);
    assert(an * cd <= cn * ad) by (nonlinear_arith)
        requires
            an * bd <= bn * ad,
            bn * cd <= cn * bd,
            an >= 0,
            bn >= 0,
            cn >= 0,
            ad > 0,
            bd > 0,
            cd > 0,
    ;
}

proof fn lemma_filter_single(x: Color, p: spec_fn(Color) -> bool)
    ensures
        seq![x].filter(p) == (if p(x) {
            seq![x]
        } else {
            Seq::<Color>::empty()
        }),
{
    reveal(Seq::filter);
    assert(seq![x].drop_last() =~= Seq::<Color>::empty());
    assert(Seq::<Color>::empty().filter(p) =~= Seq::<Color>::empty());
    if p(x) {
        assert(seq![x].filter(p) =~= seq![x]);
    } else {
        assert(seq![x].filter(p) =~= Seq::<Color>::empty());
    }
}

proof fn lemma_push_class(t: Seq<Color>, c: Color, x: Color)
    ensures
        hue_class(t.push(c), x) == hue_class(t, x) + hue_class(seq![c], x),
{
    Seq::filter_distributes_over_add(t, seq![c], |y: Color| same_hue(y, x));

    assert(t.push(c) =~= t + seq![c]);
}

proof fn lemma_insert_class(t: Seq<Color>, c: Color, x: Color)
    ensures
        hue_class(insert_by_hue(t, c), x) == hue_class(t, x) + hue_class(seq![c], x),
    decreases t.len(),
{
    let p = |y: Color| same_hue(y, x);
    if t.len() == 0 {
        assert(t.filter(p) =~= Seq::<Color>::empty()) by {
            reveal(Seq::filter);
        }
        assert(hue_class(t, x) + hue_class(seq![c], x) =~= hue_class(seq![c], x));
    } else if hue_le(t.last(), c) {
        lemma_push_class(t, c, x);
    } else {
        let u = t.drop_last();
        let l = t.last();
        lemma_insert_class(u, c, x);
        lemma_push_class(insert_by_hue(u, c), l, x);
        lemma_push_class(u, l, x);
        assert(u.push(l) =~= t);
        lemma_filter_single(c, p);
        lemma_filter_single(l, p);
        if same_hue(c, x) && same_hue(l, x) {
            lemma_hue_le_transitive(l, x, c);
        }
        assert(hue_class(u, x) + hue_class(seq![c], x) + hue_class(seq![l], x) =~= hue_class(u, x)
            + hue_class(seq![l], x) + hue_class(seq![c], x));
    }
}

/// The hue sort is stable: for every hue, the colors of that hue come out in
/// the order they went in.
pub proof fn lemma_hue_sorted_stable(s: Seq<Color>, x: Color)
    ensures
        hue_class(hue_sorted(s), x) == hue_class(s, x),
    decreases s.len(),
{
    if s.len() == 0 {
        assert(hue_sorted(s) =~= s);
    } else {
        lemma_hue_sorted_stable(s.drop_last(), x);
        lemma_insert_class(hue_sorted(s.drop_last()), s.last(), x);
        lemma_push_class(s.drop_last(), s.last(), x);
        assert(s.drop_last().push(s.last()) =~= s);
    }
}

/// Sorts colors by ascending hue; colors of equal hue keep their relative order.
pub fn sort_by_hue(palette: &Vec<Color>) -> (r: Vec<Color>)
    ensures
        r@ == hue_sorted(palette@),
        hue_ascending(r@),
        r@.to_multiset() == palette@.to_multiset(),
        forall|x: Color| #[trigger] hue_class(r@, x) == hue_class(palette@, x),
{
    proof {
        lemma_hue_sorted_ascending(palette@);
        assert forall|x: Color| #[trigger] hue_class(hue_sorted(palette@), x) == hue_class(palette@, x) by {
            lemma_hue_sorted_stable(palette@, x);
        }
    }
    let mut out: Vec<Color> = Vec::new();
    let mut i: usize = 0;
    while i < palette.len()
        invariant
            i <= palette.len(),
            out@ == hue_sorted(palette@.subrange(0, i as int)),
        decreases palette.len() - i,
    {
        let c = palette[i];
        let mut k: usize = out.len();
        while k > 0 && hue_greater(out[k - 1], c)
            invariant
                k <= out.len(),
                forall|j: int| k <= j < out.len() ==> !hue_le(#[trigger] out@[j], c),
            decreases k,
        {
            k = k - 1;
        }
        proof {
            lemma_insert_at(out@, c, k as int);
            assert(palette@.subrange(0, i + 1).drop_last() =~= palette@.subrange(0, i as int));
        }
        out.insert(k, c);
        i = i + 1;
    }
    assert(palette@.subrange(0, palette.len() as int) =~= palette@);
    out
}

proof fn lemma_insert_len(t: Seq<Color>, c: Color)
    ensures
        insert_by_hue(t, c).len() == t.len() + 1,
    decreases t.len(),
{
    if t.len() > 0 {
        lemma_insert_len(t.drop_last(), c);
    }
}

/// The hue sort keeps the number of colors.
pub proof fn lemma_hue_sorted_len(s: Seq<Color>)
    ensures
        hue_sorted(s).len() == s.len(),
    decreases s.len(),
{
    if s.len() > 0 {
        lemma_hue_sorted_len(s.drop_last());
        lemma_insert_len(hue_sorted(s.drop_last()), s.last());
    }
}

/// A palette whose hues already ascend comes back from the hue sort unchanged.
pub proof fn lemma_sorted_palette_unchanged(s: Seq<Color>)
    requires
        hue_ascending(s),
    ensures
        hue_sorted(s) == s,
    decreases s.len(),
{
    if s.len() > 0 {
        let u = s.drop_last();
        assert forall|i: int| 0 < i < u.len() implies #[trigger] hue_le(u[i - 1], u[i]) by {
            assert(hue_le(s[i - 1], s[i]));
        }
        lemma_sorted_palette_unchanged(u);
        if u.len() > 0 {
            assert(hue_le(s[s.len() - 2], s[s.len() - 1]));
        }
        assert(u.push(s.last()) =~= s);
    }
}

/// Sorting the same palette twice gives identical results.
pub proof fn lemma_hue_sort_deterministic(a: Seq<Color>, b: Seq<Color>)
    requires
        a == b,
    ensures
        hue_sorted(a) == hue_sorted(b),
{
}

} // verus!
