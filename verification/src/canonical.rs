//! What a canonical form looks like, and that canonicalization reaches it
//! and leaves it alone.

use crate::aci::{
    agree_back, agree_front, all_concat, canon, canon_alt, canon_branches, canon_factors,
    common_prefix_from, common_suffix_from, factored, middle_of, middles, sorted_unique,
};
use crate::balance::{lemma_key_start, lemma_unique_factors};
use crate::model::{
    branches_of, concat_keys, factors_of, key, pack_branches, star_of, unwrap_single, Regex,
};
use crate::node::ParsingResult;
use crate::tidy::{lemma_tree_tidy, plain, solid, tidy, tidy_branches, tidy_factors};
use crate::unique::{
    is_among, key_is_among, lemma_sorted_unique, lemma_sorted_unique_fixed, strictly_sorted,
};
use vstd::prelude::*;

verus! {

/// No factor can be drawn out of the alternation of `bs`: there are fewer
/// than two branches, or one of them is no concatenation, or the branches
/// agree neither on their first nor on their last factor.
pub open spec fn undrawable(bs: Seq<Regex>) -> bool {
    ||| bs.len() < 2
    ||| !all_concat(bs)
    ||| (common_prefix_from(bs, 0) == 0 && common_suffix_from(bs, 0, 0) == 0)
}

/// `r` is in canonical form: the branches of every alternation rise
/// strictly by key, are never one alone and have no factor to draw out, and
/// no concatenation holds one factor alone unless it is a literal.
pub open spec fn canonical(r: Regex) -> bool
    decreases r,
{
    match r {
        Regex::Alt(bs) => {
            &&& canonical_each(bs)
            &&& strictly_sorted(bs)
            &&& bs.len() != 1
            &&& undrawable(bs)
        },
        Regex::Concat(fs) => {
            &&& canonical_each(fs)
            &&& !(fs.len() == 1 && !(fs[0] is Char))
        },
        Regex::Star(b) => canonical(*b),
        Regex::Char(_) => true,
    }
}

/// Every expression of `rs` is in canonical form.
pub open spec fn canonical_each(rs: Seq<Regex>) -> bool
    decreases rs,
{
    forall|i: int| 0 <= i < rs.len() ==> canonical(#[trigger] rs[i])
}

proof fn lemma_canon_branches_fixed(bs: Seq<Regex>)
    requires
        tidy_branches(bs),
        canonical_each(bs),
    ensures
        canon_branches(bs) == bs,
    decreases bs, 0int,
{
    if bs.len() == 0 {
        assert(canon_branches(bs) =~= bs);
    } else {
        let front = bs.drop_last();
        assert forall|i: int| 0 <= i < front.len() implies {
            let b = #[trigger] front[i];
            (b is Concat || b is Star) && tidy(b) && canonical(b)
        } by {
            assert(front[i] == bs[i]);
        }
        lemma_canon_branches_fixed(front);
        lemma_canon_fixed(bs.last());
        assert(canon_branches(bs) =~= bs);
    }
}

proof fn lemma_canon_factors_fixed(fs: Seq<Regex>)
    requires
        tidy_factors(fs),
        canonical_each(fs),
    ensures
        canon_factors(fs) == fs,
    decreases fs, 0int,
{
    if fs.len() == 0 {
        assert(canon_factors(fs) =~= fs);
    } else {
        let front = fs.drop_last();
        assert forall|i: int| 0 <= i < front.len() implies {
            let f = #[trigger] front[i];
            !(f is Concat) && solid(f) && tidy(f) && canonical(f)
        } by {
            assert(front[i] == fs[i]);
        }
        lemma_canon_factors_fixed(front);
        lemma_canon_fixed(fs.last());
        assert(canon_factors(fs) =~= fs);
    }
}

/// Canonicalization leaves a tidy tree in canonical form as it is.
pub proof fn lemma_canon_fixed(r: Regex)
    requires
        tidy(r),
        canonical(r),
    ensures
        canon(r) == r,
    decreases r, 1int,
{
    match r {
        Regex::Alt(bs) => {
            lemma_canon_branches_fixed(bs);
            lemma_sorted_unique_fixed(bs);
        },
        Regex::Concat(fs) => {
            lemma_canon_factors_fixed(fs);
        },
        Regex::Star(b) => {
            lemma_canon_fixed(*b);
        },
        Regex::Char(_) => {},
    }
}

/// The common prefix scanned from `j` ends where the branches stop agreeing
/// or the first branch ends, and not before.
pub proof fn lemma_common_prefix(u: Seq<Regex>, j: int)
    requires
        0 <= j <= factors_of(u[0]).len(),
    ensures
        j <= common_prefix_from(u, j) <= factors_of(u[0]).len(),
        forall|k: int| j <= k < common_prefix_from(u, j) ==> agree_front(u, k),
        !(common_prefix_from(u, j) < factors_of(u[0]).len() && agree_front(
            u,
            common_prefix_from(u, j),
        )),
    decreases factors_of(u[0]).len() - j,
{
    if j < factors_of(u[0]).len() && agree_front(u, j) {
        lemma_common_prefix(u, j + 1);
    }
}

/// The common suffix scanned from `t` ends where the branches stop agreeing
/// or the first branch has no factor left, and not before.
pub proof fn lemma_common_suffix(u: Seq<Regex>, h: int, t: int)
    requires
        0 <= h,
        0 <= t,
        h + t <= factors_of(u[0]).len(),
    ensures
        t <= common_suffix_from(u, h, t),
        h + common_suffix_from(u, h, t) <= factors_of(u[0]).len(),
        forall|k: int| t <= k < common_suffix_from(u, h, t) ==> agree_back(u, h, k),
        !(h + common_suffix_from(u, h, t) < factors_of(u[0]).len() && agree_back(
            u,
            h,
            common_suffix_from(u, h, t),
        )),
    decreases factors_of(u[0]).len() - h - t,
{
    if h + t < factors_of(u[0]).len() && agree_back(u, h, t) {
        lemma_common_suffix(u, h, t + 1);
    }
}

/// Every branch has the factors that are drawn out.
pub proof fn lemma_draw_bounds(u: Seq<Regex>)
    requires
        u.len() > 0,
    ensures
        ({
            let h = common_prefix_from(u, 0);
            let t = common_suffix_from(u, h, 0);
            &&& 0 <= h
            &&& 0 <= t
            &&& forall|i: int| 0 <= i < u.len() ==> h + t <= factors_of(#[trigger] u[i]).len()
        }),
{
    let h = common_prefix_from(u, 0);
    lemma_common_prefix(u, 0);
    lemma_common_suffix(u, h, 0);
    let t = common_suffix_from(u, h, 0);
    assert forall|i: int| 0 <= i < u.len() implies h + t <= factors_of(#[trigger] u[i]).len() by {
        if t > 0 {
            assert(agree_back(u, h, t - 1));
        } else if h > 0 {
            assert(agree_front(u, h - 1));
        }
    }
}

/// `x` is a tidy branch in canonical form.
pub open spec fn fit(x: Regex) -> bool {
    &&& tidy(x)
    &&& canonical(x)
    &&& (x is Concat || x is Star)
}

/// Every expression of `s` is a tidy branch in canonical form.
pub open spec fn fits(s: Seq<Regex>) -> bool {
    forall|i: int| 0 <= i < s.len() ==> fit(#[trigger] s[i])
}

/// Every expression of `s` is a tidy factor in canonical form.
pub open spec fn fit_factors(s: Seq<Regex>) -> bool {
    &&& tidy_factors(s)
    &&& canonical_each(s)
}

/// Every expression of `s` is among those of `t`.
pub open spec fn each_among(s: Seq<Regex>, t: Seq<Regex>) -> bool {
    forall|k: int| 0 <= k < s.len() ==> is_among(#[trigger] s[k], t)
}

/// The branches of a tidy expression in canonical form that is no literal
/// are tidy branches in canonical form.
proof fn lemma_branches_fit(m: Regex)
    requires
        tidy(m),
        canonical(m),
        !(m is Char),
    ensures
        fits(branches_of(m)),
        solid(m) ==> branches_of(m).len() > 0,
{
    match m {
        Regex::Alt(bs) => {
            assert(tidy_branches(bs));
            assert(canonical_each(bs));
            assert forall|i: int| 0 <= i < bs.len() implies fit(#[trigger] bs[i]) by {}
        },
        _ => {
            assert(branches_of(m)[0] == m);
        },
    }
}

/// The factors of a tidy expression in canonical form are tidy factors in
/// canonical form, given that the expression is not the alternation without
/// branches.
pub proof fn lemma_factors_fit(m: Regex)
    requires
        tidy(m),
        canonical(m),
        solid(m),
    ensures
        fit_factors(factors_of(m)),
{
    match m {
        Regex::Concat(fs) => {},
        _ => {
            assert(factors_of(m)[0] == m);
        },
    }
}

/// A part of the factors of a tidy concatenation in canonical form.
pub proof fn lemma_subrange_fit(fs: Seq<Regex>, from: int, to: int)
    requires
        fit_factors(fs),
        0 <= from <= to <= fs.len(),
    ensures
        fit_factors(fs.subrange(from, to)),
{
    let sub = fs.subrange(from, to);
    assert forall|i: int| 0 <= i < sub.len() implies {
        let f = #[trigger] sub[i];
        !(f is Concat) && solid(f) && tidy(f) && canonical(f)
    } by {
        assert(sub[i] == fs[from + i]);
    }
}

/// The concatenation of tidy factors in canonical form, one factor that is
/// no literal standing for itself, is tidy and in canonical form.
proof fn lemma_unwrap_fit(fs: Seq<Regex>)
    requires
        fit_factors(fs),
    ensures
        tidy(unwrap_single(Regex::Concat(fs))),
        canonical(unwrap_single(Regex::Concat(fs))),
        solid(unwrap_single(Regex::Concat(fs))),
        !(unwrap_single(Regex::Concat(fs)) is Char),
{
    if fs.len() == 1 && !(fs[0] is Char) {
        assert(unwrap_single(Regex::Concat(fs)) == fs[0]);
    }
}

/// What is left of a branch between the factors drawn out is tidy and in
/// canonical form, and contributes at least one branch.
proof fn lemma_middle(x: Regex, h: int, t: int)
    requires
        fit(x),
        x is Concat,
        0 <= h,
        0 <= t,
        h + t <= factors_of(x).len(),
    ensures
        tidy(middle_of(x, h, t)),
        canonical(middle_of(x, h, t)),
        fits(branches_of(middle_of(x, h, t))),
        branches_of(middle_of(x, h, t)).len() > 0,
{
    let fs = factors_of(x);
    lemma_subrange_fit(fs, h, fs.len() - t);
    lemma_unwrap_fit(fs.subrange(h, fs.len() - t));
    lemma_branches_fit(middle_of(x, h, t));
}

/// The middles of tidy branches in canonical form are such branches again;
/// every branch of every middle is among them.
pub proof fn lemma_middles(u: Seq<Regex>, h: int, t: int)
    requires
        fits(u),
        all_concat(u),
        0 <= h,
        0 <= t,
        forall|i: int| 0 <= i < u.len() ==> h + t <= factors_of(#[trigger] u[i]).len(),
    ensures
        fits(middles(u, h, t)),
        u.len() > 0 ==> middles(u, h, t).len() > 0,
        forall|i: int|
            0 <= i < u.len() ==> each_among(
                branches_of(middle_of(#[trigger] u[i], h, t)),
                middles(u, h, t),
            ),
    decreases u.len(),
{
    if u.len() > 0 {
        let front = u.drop_last();
        let last = u.last();
        let m = middles(u, h, t);
        let mf = middles(front, h, t);
        let bl = branches_of(middle_of(last, h, t));
        assert forall|i: int| 0 <= i < front.len() implies fit(#[trigger] front[i])
            && front[i] is Concat && h + t <= factors_of(front[i]).len() by {
            assert(front[i] == u[i]);
        }
        lemma_middles(front, h, t);
        assert(u[u.len() - 1] == last);
        lemma_middle(last, h, t);
        assert(m == mf + bl);
        assert forall|k: int| 0 <= k < m.len() implies fit(#[trigger] m[k]) by {
            if k < mf.len() {
                assert(m[k] == mf[k]);
            } else {
                assert(m[k] == bl[k - mf.len()]);
            }
        }
        assert forall|i: int| 0 <= i < u.len() implies each_among(
            branches_of(middle_of(#[trigger] u[i], h, t)),
            m,
        ) by {
            let b = branches_of(middle_of(u[i], h, t));
            assert forall|k: int| 0 <= k < b.len() implies is_among(#[trigger] b[k], m) by {
                if i < front.len() {
                    assert(front[i] == u[i]);
                    assert(is_among(b[k], mf));
                    let n = choose|n: int| 0 <= n < mf.len() && #[trigger] mf[n] == b[k];
                    assert(m[n] == b[k]);
                } else {
                    assert(m[mf.len() + k] == b[k]);
                }
            }
        }
    }
}

/// `x` is a concatenation whose first factor has the key `k`.
pub open spec fn starts_with(x: Regex, k: Seq<char>) -> bool {
    &&& x is Concat
    &&& factors_of(x).len() > 0
    &&& key(factors_of(x)[0]) == k
}

/// `x` is a concatenation whose last factor has the key `k`.
pub open spec fn ends_with(x: Regex, k: Seq<char>) -> bool {
    &&& x is Concat
    &&& factors_of(x).len() > 0
    &&& key(factors_of(x).last()) == k
}

proof fn lemma_concat_keys_single(x: Regex)
    ensures
        concat_keys(seq![x]) == key(x),
{
    assert(seq![x].drop_last() =~= Seq::<Regex>::empty());
    assert(concat_keys(Seq::<Regex>::empty()) =~= Seq::<char>::empty());
    assert(seq![x].last() == x);
    assert(concat_keys(seq![x]) =~= key(x));
}

/// A tidy branch in canonical form with the key of such a concatenation is
/// a concatenation of as many factors, with the same keys one by one.
proof fn lemma_same_key_factors(e: Regex, m: Regex)
    requires
        fit(e),
        e is Concat,
        fit(m),
        key(e) == key(m),
    ensures
        m is Concat,
        factors_of(m).len() == factors_of(e).len(),
        forall|j: int|
            0 <= j < factors_of(m).len() ==> key(#[trigger] factors_of(m)[j]) == key(
                factors_of(e)[j],
            ),
{
    let fs = factors_of(e);
    assert(tidy_factors(fs));
    if m is Star {
        let one = seq![m];
        assert(tidy_factors(one)) by {
            assert forall|i: int| 0 <= i < one.len() implies {
                let f = #[trigger] one[i];
                !(f is Concat) && solid(f) && tidy(f)
            } by {
                assert(one[i] == m);
            }
        }
        lemma_concat_keys_single(m);
        lemma_unique_factors(fs, one);
        assert(key(fs[0]) == key(one[0]));
        lemma_key_start(m);
        lemma_key_start(fs[0]);
        assert(false);
    } else {
        assert(tidy_factors(factors_of(m)));
        lemma_unique_factors(factors_of(m), fs);
    }
}

proof fn lemma_all_start(ms: Seq<Regex>, inner: Seq<Regex>, k: Seq<char>)
    requires
        fits(ms),
        fits(inner),
        forall|i: int| 0 <= i < ms.len() ==> key_is_among(#[trigger] ms[i], inner),
        forall|n: int| 0 <= n < inner.len() ==> starts_with(#[trigger] inner[n], k),
    ensures
        forall|i: int| 0 <= i < ms.len() ==> starts_with(#[trigger] ms[i], k),
{
    assert forall|i: int| 0 <= i < ms.len() implies starts_with(#[trigger] ms[i], k) by {
        assert(key_is_among(ms[i], inner));
        let n = choose|n: int| 0 <= n < inner.len() && key(#[trigger] inner[n]) == key(ms[i]);
        assert(starts_with(inner[n], k));
        lemma_same_key_factors(inner[n], ms[i]);
        assert(key(factors_of(ms[i])[0]) == key(factors_of(inner[n])[0]));
    }
}

proof fn lemma_all_end(ms: Seq<Regex>, inner: Seq<Regex>, k: Seq<char>)
    requires
        fits(ms),
        fits(inner),
        forall|i: int| 0 <= i < ms.len() ==> key_is_among(#[trigger] ms[i], inner),
        forall|n: int| 0 <= n < inner.len() ==> ends_with(#[trigger] inner[n], k),
    ensures
        forall|i: int| 0 <= i < ms.len() ==> ends_with(#[trigger] ms[i], k),
{
    assert forall|i: int| 0 <= i < ms.len() implies ends_with(#[trigger] ms[i], k) by {
        assert(key_is_among(ms[i], inner));
        let n = choose|n: int| 0 <= n < inner.len() && key(#[trigger] inner[n]) == key(ms[i]);
        assert(ends_with(inner[n], k));
        lemma_same_key_factors(inner[n], ms[i]);
        let last = factors_of(ms[i]).len() - 1;
        assert(key(factors_of(ms[i])[last]) == key(factors_of(inner[n])[last]));
    }
}

/// Where every branch of the middle of `x` starts with the key `k`, the
/// middle is not empty and its first factor has that key.
proof fn lemma_branch_start(x: Regex, h: int, t: int, ms: Seq<Regex>, k: Seq<char>)
    requires
        fit(x),
        x is Concat,
        0 <= h,
        0 <= t,
        h + t <= factors_of(x).len(),
        each_among(branches_of(middle_of(x, h, t)), ms),
        forall|i: int| 0 <= i < ms.len() ==> starts_with(#[trigger] ms[i], k),
    ensures
        h + t < factors_of(x).len(),
        key(factors_of(x)[h]) == k,
{
    let fs = factors_of(x);
    let sub = fs.subrange(h, fs.len() - t);
    let m = middle_of(x, h, t);
    let bs = branches_of(m);
    assert(tidy_factors(fs));
    assert(canonical_each(fs));
    lemma_subrange_fit(fs, h, fs.len() - t);
    if sub.len() == 1 && !(sub[0] is Char) {
        assert(m == sub[0]);
        match m {
            Regex::Alt(ys) => {
                assert(tidy_branches(ys));
                assert(canonical_each(ys));
                assert forall|n: int| 0 <= n < ys.len() implies starts_with(#[trigger] ys[n], k) by {
                    assert(is_among(bs[n], ms));
                    let j = choose|j: int| 0 <= j < ms.len() && #[trigger] ms[j] == bs[n];
                    assert(starts_with(ms[j], k));
                }
                assert(starts_with(ys[0], k));
                assert(all_concat(ys)) by {
                    assert forall|n: int| 0 <= n < ys.len() implies #[trigger] ys[n] is Concat by {
                        assert(starts_with(ys[n], k));
                    }
                }
                assert(agree_front(ys, 0)) by {
                    assert forall|n: int| 0 <= n < ys.len() implies {
                        let gs = factors_of(#[trigger] ys[n]);
                        &&& 0 < gs.len()
                        &&& key(gs[0]) == key(factors_of(ys[0])[0])
                    } by {
                        assert(starts_with(ys[n], k));
                    }
                }
                lemma_common_prefix(ys, 1);
                assert(common_prefix_from(ys, 0) == common_prefix_from(ys, 1));
                assert(false);
            },
            _ => {
                assert(bs[0] == m);
                assert(is_among(bs[0], ms));
                let j = choose|j: int| 0 <= j < ms.len() && #[trigger] ms[j] == bs[0];
                assert(starts_with(ms[j], k));
                assert(false);
            },
        }
    } else {
        assert(m == Regex::Concat(sub));
        assert(bs[0] == m);
        assert(is_among(bs[0], ms));
        let j = choose|j: int| 0 <= j < ms.len() && #[trigger] ms[j] == bs[0];
        assert(starts_with(ms[j], k));
        assert(sub[0] == fs[h]);
    }
}

/// Where every branch of the middle of `x` ends with the key `k`, the
/// middle is not empty and its last factor has that key.
proof fn lemma_branch_end(x: Regex, h: int, t: int, ms: Seq<Regex>, k: Seq<char>)
    requires
        fit(x),
        x is Concat,
        0 <= h,
        0 <= t,
        h + t <= factors_of(x).len(),
        each_among(branches_of(middle_of(x, h, t)), ms),
        forall|i: int| 0 <= i < ms.len() ==> ends_with(#[trigger] ms[i], k),
    ensures
        h + t < factors_of(x).len(),
        key(factors_of(x)[factors_of(x).len() - 1 - t]) == k,
{
    let fs = factors_of(x);
    let sub = fs.subrange(h, fs.len() - t);
    let m = middle_of(x, h, t);
    let bs = branches_of(m);
    assert(tidy_factors(fs));
    assert(canonical_each(fs));
    lemma_subrange_fit(fs, h, fs.len() - t);
    if sub.len() == 1 && !(sub[0] is Char) {
        assert(m == sub[0]);
        match m {
            Regex::Alt(ys) => {
                assert(tidy_branches(ys));
                assert(canonical_each(ys));
                assert forall|n: int| 0 <= n < ys.len() implies ends_with(#[trigger] ys[n], k) by {
                    assert(is_among(bs[n], ms));
                    let j = choose|j: int| 0 <= j < ms.len() && #[trigger] ms[j] == bs[n];
                    assert(ends_with(ms[j], k));
                }
                assert(ends_with(ys[0], k));
                assert(all_concat(ys)) by {
                    assert forall|n: int| 0 <= n < ys.len() implies #[trigger] ys[n] is Concat by {
                        assert(ends_with(ys[n], k));
                    }
                }
                assert(agree_back(ys, 0, 0)) by {
                    assert forall|n: int| 0 <= n < ys.len() implies {
                        let gs = factors_of(#[trigger] ys[n]);
                        let first = factors_of(ys[0]);
                        &&& 0 + 0 < gs.len()
                        &&& key(gs[gs.len() - 1 - 0]) == key(first[first.len() - 1 - 0])
                    } by {
                        assert(ends_with(ys[n], k));
                    }
                }
                lemma_common_prefix(ys, 0);
                lemma_common_suffix(ys, 0, 1);
                assert(common_suffix_from(ys, 0, 0) == common_suffix_from(ys, 0, 1));
                assert(false);
            },
            _ => {
                assert(bs[0] == m);
                assert(is_among(bs[0], ms));
                let j = choose|j: int| 0 <= j < ms.len() && #[trigger] ms[j] == bs[0];
                assert(ends_with(ms[j], k));
                assert(false);
            },
        }
    } else {
        assert(m == Regex::Concat(sub));
        assert(bs[0] == m);
        assert(is_among(bs[0], ms));
        let j = choose|j: int| 0 <= j < ms.len() && #[trigger] ms[j] == bs[0];
        assert(ends_with(ms[j], k));
        assert(sub[sub.len() - 1] == fs[fs.len() - 1 - t]);
    }
}

/// After as many factors as possible are drawn out of tidy branches in
/// canonical form, none can be drawn out of their ordered, unique middles.
proof fn lemma_inner_undrawable(u: Seq<Regex>)
    requires
        u.len() > 0,
        fits(u),
        all_concat(u),
    ensures
        ({
            let h = common_prefix_from(u, 0);
            let t = common_suffix_from(u, h, 0);
            undrawable(sorted_unique(middles(u, h, t)))
        }),
{
    let h = common_prefix_from(u, 0);
    let t = common_suffix_from(u, h, 0);
    let ms = middles(u, h, t);
    let inner = sorted_unique(ms);
    lemma_draw_bounds(u);
    lemma_common_prefix(u, 0);
    lemma_common_suffix(u, h, 0);
    lemma_middles(u, h, t);
    lemma_sorted_unique(ms);
    assert(fits(inner)) by {
        assert forall|n: int| 0 <= n < inner.len() implies fit(#[trigger] inner[n]) by {
            assert(is_among(inner[n], ms));
            let j = choose|j: int| 0 <= j < ms.len() && #[trigger] ms[j] == inner[n];
            assert(fit(ms[j]));
        }
    }
    if inner.len() >= 2 && all_concat(inner) {
        let first = factors_of(inner[0]);
        if 0 < first.len() && agree_front(inner, 0) {
            let k = key(first[0]);
            assert forall|n: int| 0 <= n < inner.len() implies starts_with(#[trigger] inner[n], k) by {}
            lemma_all_start(ms, inner, k);
            assert forall|i: int| 0 <= i < u.len() implies {
                let fs = factors_of(#[trigger] u[i]);
                &&& h < fs.len()
                &&& key(fs[h]) == key(factors_of(u[0])[h])
            } by {
                lemma_branch_start(u[i], h, t, ms, k);
                lemma_branch_start(u[0], h, t, ms, k);
            }
            assert(agree_front(u, h));
            assert(u[0] is Concat);
            assert(false);
        }
        assert(common_prefix_from(inner, 0) == 0);
        if 0 < first.len() && agree_back(inner, 0, 0) {
            let k = key(first.last());
            assert forall|n: int| 0 <= n < inner.len() implies ends_with(#[trigger] inner[n], k) by {}
            lemma_all_end(ms, inner, k);
            assert forall|i: int| 0 <= i < u.len() implies {
                let fs = factors_of(#[trigger] u[i]);
                let lead = factors_of(u[0]);
                &&& h + t < fs.len()
                &&& key(fs[fs.len() - 1 - t]) == key(lead[lead.len() - 1 - t])
            } by {
                lemma_branch_end(u[i], h, t, ms, k);
                lemma_branch_end(u[0], h, t, ms, k);
            }
            assert(agree_back(u, h, t));
            assert(false);
        }
        assert(common_suffix_from(inner, 0, 0) == 0);
    }
}

proof fn lemma_fit_factors_add(a: Seq<Regex>, b: Seq<Regex>)
    requires
        fit_factors(a),
        fit_factors(b),
    ensures
        fit_factors(a + b),
{
    let c = a + b;
    assert forall|i: int| 0 <= i < c.len() implies {
        let f = #[trigger] c[i];
        !(f is Concat) && solid(f) && tidy(f) && canonical(f)
    } by {
        if i < a.len() {
            assert(c[i] == a[i]);
        } else {
            assert(c[i] == b[i - a.len()]);
        }
    }
}

proof fn lemma_fits_add(a: Seq<Regex>, b: Seq<Regex>)
    requires
        fits(a),
        fits(b),
    ensures
        fits(a + b),
{
    let c = a + b;
    assert forall|i: int| 0 <= i < c.len() implies fit(#[trigger] c[i]) by {
        if i < a.len() {
            assert(c[i] == a[i]);
        } else {
            assert(c[i] == b[i - a.len()]);
        }
    }
}

/// Drawing as many factors as possible out of tidy branches in canonical
/// form gives a tidy expression in canonical form.
proof fn lemma_factored(u: Seq<Regex>)
    requires
        u.len() > 0,
        fits(u),
        all_concat(u),
    ensures
        ({
            let h = common_prefix_from(u, 0);
            let t = common_suffix_from(u, h, 0);
            let r = factored(u, h, t);
            &&& tidy(r)
            &&& canonical(r)
            &&& solid(r)
            &&& !(r is Char)
        }),
{
    let h = common_prefix_from(u, 0);
    let t = common_suffix_from(u, h, 0);
    let ms = middles(u, h, t);
    let inner = sorted_unique(ms);
    let first = factors_of(u[0]);
    lemma_draw_bounds(u);
    lemma_middles(u, h, t);
    lemma_sorted_unique(ms);
    lemma_inner_undrawable(u);
    assert(fits(inner)) by {
        assert forall|n: int| 0 <= n < inner.len() implies fit(#[trigger] inner[n]) by {
            assert(is_among(inner[n], ms));
            let j = choose|j: int| 0 <= j < ms.len() && #[trigger] ms[j] == inner[n];
            assert(fit(ms[j]));
        }
    }
    let mid = if inner.len() == 1 {
        factors_of(inner[0])
    } else {
        seq![Regex::Alt(inner)]
    };
    assert(fit_factors(mid)) by {
        if inner.len() == 1 {
            assert(fit(inner[0]));
            lemma_factors_fit(inner[0]);
        } else {
            let a = Regex::Alt(inner);
            assert(tidy_branches(inner));
            assert(canonical_each(inner));
            assert(tidy(a));
            assert(canonical(a));
            assert forall|i: int| 0 <= i < mid.len() implies {
                let f = #[trigger] mid[i];
                !(f is Concat) && solid(f) && tidy(f) && canonical(f)
            } by {
                assert(mid[i] == a);
            }
        }
    }
    assert(fit(u[0]));
    lemma_factors_fit(u[0]);
    assert(h + t <= first.len());
    lemma_subrange_fit(first, 0, h);
    lemma_subrange_fit(first, first.len() - t, first.len() as int);
    lemma_fit_factors_add(first.subrange(0, h), mid);
    lemma_fit_factors_add(
        first.subrange(0, h) + mid,
        first.subrange(first.len() - t, first.len() as int),
    );
    lemma_unwrap_fit(
        first.subrange(0, h) + mid + first.subrange(first.len() - t, first.len() as int),
    );
}

/// The canonical alternation of tidy branches in canonical form is tidy and
/// in canonical form.
proof fn lemma_canon_alt_fit(xs: Seq<Regex>)
    requires
        fits(xs),
    ensures
        tidy(canon_alt(xs)),
        canonical(canon_alt(xs)),
        !(canon_alt(xs) is Char),
        xs.len() > 0 ==> solid(canon_alt(xs)),
{
    let u = sorted_unique(xs);
    lemma_sorted_unique(xs);
    assert(fits(u)) by {
        assert forall|n: int| 0 <= n < u.len() implies fit(#[trigger] u[n]) by {
            assert(is_among(u[n], xs));
            let j = choose|j: int| 0 <= j < xs.len() && #[trigger] xs[j] == u[n];
            assert(fit(xs[j]));
        }
    }
    assert(tidy_branches(u));
    assert(canonical_each(u));
    if u.len() <= 1 || !all_concat(u) {
        if u.len() == 1 {
            assert(fit(u[0]));
        } else {
            assert(undrawable(u));
            assert(canonical(Regex::Alt(u)));
        }
    } else {
        let h = common_prefix_from(u, 0);
        let t = common_suffix_from(u, h, 0);
        if h == 0 && t == 0 {
            assert(undrawable(u));
            assert(canonical(Regex::Alt(u)));
        } else {
            lemma_factored(u);
        }
    }
}

/// The branches that the canonical forms of tidy branches contribute are
/// tidy branches in canonical form.
pub proof fn lemma_canon_branches_fit(bs: Seq<Regex>)
    requires
        tidy_branches(bs),
    ensures
        fits(canon_branches(bs)),
        bs.len() > 0 ==> canon_branches(bs).len() > 0,
    decreases bs, 0int,
{
    if bs.len() > 0 {
        let front = bs.drop_last();
        let last = bs.last();
        assert forall|i: int| 0 <= i < front.len() implies {
            let b = #[trigger] front[i];
            (b is Concat || b is Star) && tidy(b)
        } by {
            assert(front[i] == bs[i]);
        }
        assert(bs[bs.len() - 1] == last);
        lemma_canon_branches_fit(front);
        lemma_canon_normal(last);
        lemma_branches_fit(canon(last));
        lemma_fits_add(canon_branches(front), branches_of(canon(last)));
    }
}

/// The factors that the canonical forms of tidy factors contribute are tidy
/// factors in canonical form.
pub proof fn lemma_canon_factors_fit(fs: Seq<Regex>)
    requires
        tidy_factors(fs),
    ensures
        fit_factors(canon_factors(fs)),
    decreases fs, 0int,
{
    if fs.len() > 0 {
        let front = fs.drop_last();
        let last = fs.last();
        assert forall|i: int| 0 <= i < front.len() implies {
            let f = #[trigger] front[i];
            !(f is Concat) && solid(f) && tidy(f)
        } by {
            assert(front[i] == fs[i]);
        }
        assert(fs[fs.len() - 1] == last);
        lemma_canon_factors_fit(front);
        lemma_canon_normal(last);
        lemma_factors_fit(canon(last));
        lemma_fit_factors_add(canon_factors(front), factors_of(canon(last)));
    }
}

/// The canonical form of a tidy tree is tidy and in canonical form.
pub proof fn lemma_canon_normal(r: Regex)
    requires
        tidy(r),
    ensures
        tidy(canon(r)),
        canonical(canon(r)),
        solid(r) ==> solid(canon(r)),
        canon(r) is Char ==> r is Char,
    decreases r, 1int,
{
    match r {
        Regex::Alt(bs) => {
            lemma_canon_branches_fit(bs);
            lemma_canon_alt_fit(canon_branches(bs));
        },
        Regex::Concat(fs) => {
            lemma_canon_factors_fit(fs);
            lemma_unwrap_fit(canon_factors(fs));
        },
        Regex::Star(b) => {
            lemma_canon_normal(*b);
        },
        Regex::Char(_) => {},
    }
}

/// Canonicalization is idempotent on tidy trees: the canonical form of a
/// canonical form is that form, and so is its text.
pub proof fn lemma_canon_idempotent(r: Regex)
    requires
        tidy(r),
    ensures
        canon(canon(r)) == canon(r),
        key(canon(canon(r))) == key(canon(r)),
{
    lemma_canon_normal(r);
    lemma_canon_fixed(canon(r));
}

/// Canonicalization is idempotent: canonicalizing the canonical form of a
/// plain tree `x` gives that form again, the same tree with the same text.
/// The law is stated of plain trees only: a literal that is an operator
/// character, or an alternation without branches among the factors of a
/// concatenation, can make two different trees share a key or keep a common
/// factor from being drawn out at once.
pub proof fn lemma_simplify_idempotent(x: ParsingResult)
    requires
        plain(x@),
    ensures
        canon(canon(x@)) == canon(x@),
        key(canon(canon(x@))) == key(canon(x@)),
{
    lemma_tree_tidy(x);
    lemma_canon_idempotent(x@);
}

} // verus!
