//! Canonicalization keeps the language of a tidy expression.

use crate::aci::{
    agree_back, agree_front, all_concat, canon, canon_alt, canon_branches, canon_factors,
    common_prefix_from, common_suffix_from, factored, middle_of, middles, sorted_unique,
};
use crate::canonical::{
    canonical, fit, fit_factors, fits, lemma_canon_branches_fit, lemma_canon_normal, lemma_common_prefix,
    lemma_common_suffix, lemma_draw_bounds, lemma_factors_fit, lemma_middles, lemma_subrange_fit,
};
use crate::language::{
    accepts, accepts_all, accepts_any, lemma_accepts_all_join, lemma_accepts_all_split,
    lemma_accepts_any_add, lemma_accepts_branches, lemma_accepts_factors, lemma_accepts_single,
    lemma_star_unit, lemma_star_within, star, within_star,
};
use crate::balance::{
    bar_free, lemma_joined_keys_bar, lemma_key_start, lemma_unique_branches, lemma_unique_factors,
};
use crate::model::{
    body_key, branches_of, concat_keys, factors_of, joined_keys, key, star_of, unwrap_single,
    Regex,
};
use crate::same_key::{
    lemma_same_key_branch, lemma_same_key_star, lemma_same_keys_all, lemma_same_keys_any,
    lemma_star_same,
};
use crate::node::ParsingResult;
use crate::tidy::{lemma_tree_tidy, plain, solid, tidy, tidy_branches, tidy_factors};
use crate::unique::{is_among, key_is_among, lemma_sorted_unique};
use vstd::prelude::*;

verus! {

/// The concatenation of `fs`, one factor that is no literal standing for
/// itself, accepts what `fs` accept one after the other.
proof fn lemma_unwrap_accepts(fs: Seq<Regex>, w: Seq<char>)
    ensures
        accepts(unwrap_single(Regex::Concat(fs)), w) <==> accepts_all(fs, w),
{
    if fs.len() == 1 && !(fs[0] is Char) {
        assert(fs =~= seq![fs[0]]);
        lemma_accepts_single(fs[0], w);
    }
}

/// The star over an expression, a star standing for itself, accepts what
/// the star over the expression accepts.
proof fn lemma_star_of_accepts(x: Regex, w: Seq<char>)
    ensures
        accepts(star_of(x), w) <==> accepts(star(x), w),
{
    match x {
        Regex::Star(b) => {
            assert(x == star(*b));
            if accepts(x, w) {
                lemma_star_unit(x, w);
            }
            if accepts(star(x), w) {
                assert(within_star(x, *b));
                lemma_star_within(x, *b, w);
            }
        },
        _ => {},
    }
}

/// The ordered, unique list of tidy branches accepts what the branches
/// accept.
proof fn lemma_sorted_unique_any(xs: Seq<Regex>, w: Seq<char>)
    requires
        tidy_branches(xs),
    ensures
        accepts_any(sorted_unique(xs), w) <==> accepts_any(xs, w),
{
    let u = sorted_unique(xs);
    lemma_sorted_unique(xs);
    if accepts_any(u, w) {
        let n = choose|n: int| 0 <= n < u.len() && accepts(#[trigger] u[n], w);
        assert(is_among(u[n], xs));
        let j = choose|j: int| 0 <= j < xs.len() && #[trigger] xs[j] == u[n];
        assert(accepts(xs[j], w));
    }
    if accepts_any(xs, w) {
        let j = choose|j: int| 0 <= j < xs.len() && accepts(#[trigger] xs[j], w);
        assert(key_is_among(xs[j], u));
        let n = choose|n: int| 0 <= n < u.len() && key(#[trigger] u[n]) == key(xs[j]);
        assert(is_among(u[n], xs));
        let m = choose|m: int| 0 <= m < xs.len() && #[trigger] xs[m] == u[n];
        assert(tidy(xs[m]));
        lemma_same_key_branch(u[n], xs[j], w);
    }
}

/// The factors of the branch `x` between its first `h` and its last `t`.
pub open spec fn middle_factors(x: Regex, h: int, t: int) -> Seq<Regex> {
    factors_of(x).subrange(h, factors_of(x).len() - t)
}

/// Whether `w` falls into words for the middle factors of a branch of `u`.
pub open spec fn any_middle(u: Seq<Regex>, h: int, t: int, w: Seq<char>) -> bool {
    exists|i: int| 0 <= i < u.len() && accepts_all(middle_factors(#[trigger] u[i], h, t), w)
}

/// The middles of the branches accept what the middle factors of a branch
/// accept one after the other.
proof fn lemma_middles_any(u: Seq<Regex>, h: int, t: int, w: Seq<char>)
    ensures
        accepts_any(middles(u, h, t), w) <==> any_middle(u, h, t, w),
    decreases u.len(),
{
    if u.len() > 0 {
        let front = u.drop_last();
        let last = u.last();
        lemma_middles_any(front, h, t, w);
        lemma_accepts_any_add(middles(front, h, t), branches_of(middle_of(last, h, t)), w);
        lemma_accepts_branches(middle_of(last, h, t), w);
        lemma_unwrap_accepts(middle_factors(last, h, t), w);
        if any_middle(u, h, t, w) {
            let i = choose|i: int|
                0 <= i < u.len() && accepts_all(middle_factors(#[trigger] u[i], h, t), w);
            if i < front.len() {
                assert(front[i] == u[i]);
            }
        }
        if any_middle(front, h, t, w) {
            let i = choose|i: int|
                0 <= i < front.len() && accepts_all(middle_factors(#[trigger] front[i], h, t), w);
            assert(u[i] == front[i]);
        }
        if accepts_all(middle_factors(last, h, t), w) {
            assert(u[u.len() - 1] == last);
        }
    }
}

/// What stands between the factors drawn out accepts what the ordered,
/// unique middles accept.
proof fn lemma_mid_accepts(inner: Seq<Regex>, w: Seq<char>)
    ensures
        accepts_all(
            if inner.len() == 1 {
                factors_of(inner[0])
            } else {
                seq![Regex::Alt(inner)]
            },
            w,
        ) <==> accepts_any(inner, w),
{
    if inner.len() == 1 {
        lemma_accepts_factors(inner[0], w);
        if accepts_any(inner, w) {
            let i = choose|i: int| 0 <= i < inner.len() && accepts(#[trigger] inner[i], w);
        }
        if accepts(inner[0], w) {
            assert(accepts_any(inner, w));
        }
    } else {
        lemma_accepts_single(Regex::Alt(inner), w);
    }
}

/// The branch `u[i]` falls apart into factors with the keys of the first
/// `h` and the last `t` factors of the first branch, around its middle
/// factors.
proof fn lemma_branch_parts(u: Seq<Regex>, i: int)
    requires
        0 <= i < u.len(),
        fits(u),
        all_concat(u),
    ensures
        ({
            let h = common_prefix_from(u, 0);
            let t = common_suffix_from(u, h, 0);
            let fs = factors_of(u[i]);
            let first = factors_of(u[0]);
            let lead = fs.subrange(0, h);
            let tail = fs.subrange(fs.len() - t, fs.len() as int);
            let p = first.subrange(0, h);
            let s = first.subrange(first.len() - t, first.len() as int);
            &&& 0 <= h
            &&& 0 <= t
            &&& h + t <= fs.len()
            &&& h + t <= first.len()
            &&& fs == lead + middle_factors(u[i], h, t) + tail
            &&& tidy_factors(lead)
            &&& tidy_factors(tail)
            &&& tidy_factors(p)
            &&& tidy_factors(s)
            &&& forall|j: int| 0 <= j < h ==> key(#[trigger] lead[j]) == key(p[j])
            &&& forall|j: int| 0 <= j < t ==> key(#[trigger] tail[j]) == key(s[j])
        }),
{
    let h = common_prefix_from(u, 0);
    let t = common_suffix_from(u, h, 0);
    let fs = factors_of(u[i]);
    let first = factors_of(u[0]);
    let lead = fs.subrange(0, h);
    let tail = fs.subrange(fs.len() - t, fs.len() as int);
    let p = first.subrange(0, h);
    let s = first.subrange(first.len() - t, first.len() as int);
    lemma_draw_bounds(u);
    lemma_common_prefix(u, 0);
    lemma_common_suffix(u, h, 0);
    assert(fit(u[i]) && fit(u[0]));
    assert(u[i] is Concat && u[0] is Concat);
    lemma_factors_fit(u[i]);
    lemma_factors_fit(u[0]);
    assert(h + t <= fs.len());
    assert(h + t <= first.len());
    lemma_subrange_fit(fs, 0, h);
    lemma_subrange_fit(fs, fs.len() - t, fs.len() as int);
    lemma_subrange_fit(first, 0, h);
    lemma_subrange_fit(first, first.len() - t, first.len() as int);
    assert(fs =~= lead + middle_factors(u[i], h, t) + tail);
    assert forall|j: int| 0 <= j < h implies key(#[trigger] lead[j]) == key(p[j]) by {
        assert(agree_front(u, j));
        assert(lead[j] == fs[j]);
        assert(p[j] == first[j]);
    }
    assert forall|j: int| 0 <= j < t implies key(#[trigger] tail[j]) == key(s[j]) by {
        let m = t - 1 - j;
        assert(agree_back(u, h, m));
        assert(tail[j] == fs[fs.len() - 1 - m]);
        assert(s[j] == first[first.len() - 1 - m]);
    }
}

/// Three lists, one after the other, accept `w` exactly if `w` is cut in
/// three words, one for each.
pub open spec fn cut_in_three(
    a: Seq<Regex>,
    b: Seq<Regex>,
    c: Seq<Regex>,
    w: Seq<char>,
    j: int,
    k: int,
) -> bool {
    &&& 0 <= j <= k <= w.len()
    &&& accepts_all(a, w.subrange(0, j))
    &&& accepts_all(b, w.subrange(j, k))
    &&& accepts_all(c, w.subrange(k, w.len() as int))
}

proof fn lemma_three_join(
    a: Seq<Regex>,
    b: Seq<Regex>,
    c: Seq<Regex>,
    w: Seq<char>,
    j: int,
    k: int,
)
    requires
        cut_in_three(a, b, c, w, j, k),
    ensures
        accepts_all(a + b + c, w),
{
    let u = w.take(k);
    assert(u.take(j) =~= w.subrange(0, j));
    assert(u.skip(j) =~= w.subrange(j, k));
    lemma_accepts_all_join(a, b, u, j);
    assert(w.skip(k) =~= w.subrange(k, w.len() as int));
    lemma_accepts_all_join(a + b, c, w, k);
}

proof fn lemma_three_split(a: Seq<Regex>, b: Seq<Regex>, c: Seq<Regex>, w: Seq<char>) -> (r: (
    int,
    int,
))
    requires
        accepts_all(a + b + c, w),
    ensures
        cut_in_three(a, b, c, w, r.0, r.1),
{
    let k = lemma_accepts_all_split(a + b, c, w);
    let u = w.take(k);
    let j = lemma_accepts_all_split(a, b, u);
    assert(u.take(j) =~= w.subrange(0, j));
    assert(u.skip(j) =~= w.subrange(j, k));
    assert(w.skip(k) =~= w.subrange(k, w.len() as int));
    (j, k)
}

/// Drawing as many factors as possible out of tidy branches in canonical
/// form keeps what the branches accept.
proof fn lemma_factored_accepts(u: Seq<Regex>, w: Seq<char>)
    requires
        u.len() > 0,
        fits(u),
        all_concat(u),
    ensures
        accepts(
            factored(u, common_prefix_from(u, 0), common_suffix_from(u, common_prefix_from(u, 0), 0)),
            w,
        ) <==> accepts_any(u, w),
{
    let h = common_prefix_from(u, 0);
    let t = common_suffix_from(u, h, 0);
    let ms = middles(u, h, t);
    let inner = sorted_unique(ms);
    let first = factors_of(u[0]);
    let p = first.subrange(0, h);
    let s = first.subrange(first.len() - t, first.len() as int);
    let mid = if inner.len() == 1 {
        factors_of(inner[0])
    } else {
        seq![Regex::Alt(inner)]
    };
    let n = w.len() as int;
    lemma_draw_bounds(u);
    lemma_middles(u, h, t);
    assert(tidy_branches(ms)) by {
        assert forall|i: int| 0 <= i < ms.len() implies {
            let b = #[trigger] ms[i];
            (b is Concat || b is Star) && tidy(b)
        } by {
            assert(fit(ms[i]));
        }
    }
    lemma_unwrap_accepts(p + mid + s, w);
    if accepts_all(p + mid + s, w) {
        let (j, k) = lemma_three_split(p, mid, s, w);
        let v = w.subrange(j, k);
        lemma_mid_accepts(inner, v);
        lemma_sorted_unique_any(ms, v);
        lemma_middles_any(u, h, t, v);
        let i = choose|i: int|
            0 <= i < u.len() && accepts_all(middle_factors(#[trigger] u[i], h, t), v);
        lemma_branch_parts(u, i);
        let fs = factors_of(u[i]);
        let lead = fs.subrange(0, h);
        let tail = fs.subrange(fs.len() - t, fs.len() as int);
        lemma_same_keys_all(lead, p, w.subrange(0, j));
        lemma_same_keys_all(tail, s, w.subrange(k, n));
        lemma_three_join(lead, middle_factors(u[i], h, t), tail, w, j, k);
        assert(accepts(u[i], w));
    }
    if accepts_any(u, w) {
        let i = choose|i: int| 0 <= i < u.len() && accepts(#[trigger] u[i], w);
        lemma_branch_parts(u, i);
        let fs = factors_of(u[i]);
        let lead = fs.subrange(0, h);
        let tail = fs.subrange(fs.len() - t, fs.len() as int);
        assert(u[i] is Concat);
        assert(accepts_all(fs, w));
        let (j, k) = lemma_three_split(lead, middle_factors(u[i], h, t), tail, w);
        let v = w.subrange(j, k);
        assert(any_middle(u, h, t, v));
        lemma_middles_any(u, h, t, v);
        lemma_sorted_unique_any(ms, v);
        lemma_mid_accepts(inner, v);
        lemma_same_keys_all(lead, p, w.subrange(0, j));
        lemma_same_keys_all(tail, s, w.subrange(k, n));
        lemma_three_join(p, mid, s, w, j, k);
    }
}

/// The canonical alternation of tidy branches in canonical form accepts
/// what the branches accept.
proof fn lemma_canon_alt_accepts(xs: Seq<Regex>, w: Seq<char>)
    requires
        fits(xs),
    ensures
        accepts(canon_alt(xs), w) <==> accepts_any(xs, w),
{
    let u = sorted_unique(xs);
    lemma_sorted_unique(xs);
    assert(tidy_branches(xs)) by {
        assert forall|i: int| 0 <= i < xs.len() implies {
            let b = #[trigger] xs[i];
            (b is Concat || b is Star) && tidy(b)
        } by {
            assert(fit(xs[i]));
        }
    }
    lemma_sorted_unique_any(xs, w);
    assert(fits(u)) by {
        assert forall|n: int| 0 <= n < u.len() implies fit(#[trigger] u[n]) by {
            assert(is_among(u[n], xs));
            let j = choose|j: int| 0 <= j < xs.len() && #[trigger] xs[j] == u[n];
            assert(fit(xs[j]));
        }
    }
    if u.len() <= 1 || !all_concat(u) {
        if u.len() == 1 {
            if accepts_any(u, w) {
                let i = choose|i: int| 0 <= i < u.len() && accepts(#[trigger] u[i], w);
            }
            if accepts(u[0], w) {
                assert(accepts_any(u, w));
            }
        }
    } else {
        let h = common_prefix_from(u, 0);
        let t = common_suffix_from(u, h, 0);
        if !(h == 0 && t == 0) {
            lemma_factored_accepts(u, w);
        }
    }
}

/// The branches that the canonical forms of tidy branches contribute accept
/// what the branches accept.
proof fn lemma_canon_branches_any(bs: Seq<Regex>, w: Seq<char>)
    requires
        tidy_branches(bs),
    ensures
        accepts_any(canon_branches(bs), w) <==> accepts_any(bs, w),
    decreases bs, 0int,
{
    if bs.len() > 0 {
        let front = bs.drop_last();
        let last = bs.last();
        assert forall|i: int| 0 <= i < front.len() implies {
            let b = #[trigger] front[i];
            (b is Concat || b is Star) && tidy(b)
        } by {
            assert(front[i] == bs[i]);
        }
        assert(tidy(bs[bs.len() - 1]));
        lemma_canon_branches_any(front, w);
        lemma_canon_accepts(last, w);
        lemma_accepts_any_add(canon_branches(front), branches_of(canon(last)), w);
        lemma_accepts_branches(canon(last), w);
        if accepts_any(bs, w) {
            let i = choose|i: int| 0 <= i < bs.len() && accepts(#[trigger] bs[i], w);
            if i < front.len() {
                assert(front[i] == bs[i]);
            }
        }
        if accepts_any(front, w) {
            let i = choose|i: int| 0 <= i < front.len() && accepts(#[trigger] front[i], w);
            assert(bs[i] == front[i]);
        }
    }
}

/// The factors that the canonical forms of tidy factors contribute accept,
/// one after the other, what the factors accept one after the other.
proof fn lemma_canon_factors_all(fs: Seq<Regex>, w: Seq<char>)
    requires
        tidy_factors(fs),
    ensures
        accepts_all(canon_factors(fs), w) <==> accepts_all(fs, w),
    decreases fs, 0int,
{
    if fs.len() > 0 {
        let front = fs.drop_last();
        let last = fs.last();
        let one = seq![last];
        assert forall|i: int| 0 <= i < front.len() implies {
            let f = #[trigger] front[i];
            !(f is Concat) && solid(f) && tidy(f)
        } by {
            assert(front[i] == fs[i]);
        }
        assert(tidy(fs[fs.len() - 1]));
        assert(fs =~= front + one);
        if accepts_all(canon_factors(fs), w) {
            let k = lemma_accepts_all_split(canon_factors(front), factors_of(canon(last)), w);
            lemma_canon_factors_all(front, w.take(k));
            lemma_accepts_factors(canon(last), w.skip(k));
            lemma_canon_accepts(last, w.skip(k));
            lemma_accepts_single(last, w.skip(k));
            lemma_accepts_all_join(front, one, w, k);
        }
        if accepts_all(fs, w) {
            let k = lemma_accepts_all_split(front, one, w);
            lemma_canon_factors_all(front, w.take(k));
            lemma_accepts_single(last, w.skip(k));
            lemma_canon_accepts(last, w.skip(k));
            lemma_accepts_factors(canon(last), w.skip(k));
            lemma_accepts_all_join(canon_factors(front), factors_of(canon(last)), w, k);
        }
    }
}

/// The canonical form of a tidy expression accepts exactly the words of the
/// expression.
pub proof fn lemma_canon_accepts(r: Regex, w: Seq<char>)
    requires
        tidy(r),
    ensures
        accepts(canon(r), w) <==> accepts(r, w),
    decreases r, 1int,
{
    match r {
        Regex::Alt(bs) => {
            assert(tidy_branches(bs));
            lemma_canon_branches_any(bs, w);
            lemma_canon_branches_fit(bs);
            lemma_canon_alt_accepts(canon_branches(bs), w);
        },
        Regex::Concat(fs) => {
            assert(tidy_factors(fs));
            lemma_canon_factors_all(fs, w);
            lemma_unwrap_accepts(canon_factors(fs), w);
        },
        Regex::Star(b) => {
            assert(r == star(*b));
            assert forall|u: Seq<char>| accepts(canon(*b), u) == accepts(*b, u) by {
                lemma_canon_accepts(*b, u);
            }
            lemma_star_same(canon(*b), *b, w);
            lemma_star_of_accepts(canon(*b), w);
        },
        Regex::Char(_) => {},
    }
}

/// Canonicalization keeps the language: the canonical form of a plain tree
/// accepts exactly the words that the tree accepts. The law is stated of
/// plain trees, of which branches and factors with the same key accept the
/// same words.
pub proof fn lemma_simplify_accepts(x: ParsingResult, w: Seq<char>)
    requires
        plain(x@),
    ensures
        accepts(canon(x@), w) <==> accepts(x@, w),
{
    lemma_tree_tidy(x);
    lemma_canon_accepts(x@, w);
}

/// A tidy factor with the text `()`.
spec fn empty_group() -> Regex {
    Regex::Alt(seq![Regex::Concat(Seq::empty())])
}

proof fn lemma_empty_group()
    ensures
        tidy_factors(seq![empty_group()]),
        concat_keys(seq![empty_group()]) == seq!['(', ')'],
{
    let e = Regex::Concat(Seq::<Regex>::empty());
    let g = empty_group();
    let one = seq![g];
    assert(seq![e][0] == e);
    assert(tidy_factors(Seq::<Regex>::empty()));
    assert(tidy(e));
    assert(tidy_branches(seq![e]));
    assert(tidy(g));
    assert(one[0] == g);
    assert(tidy_factors(one));
    assert(concat_keys(Seq::<Regex>::empty()) =~= Seq::<char>::empty());
    assert(key(e) =~= Seq::<char>::empty());
    assert(joined_keys(seq![e]) =~= Seq::<char>::empty());
    assert(key(g) =~= seq!['(', ')']);
    assert(one.drop_last() =~= Seq::<Regex>::empty());
    assert(concat_keys(one) =~= key(g));
}

/// Tidy factors with the text of an alternation or of a star are one
/// factor that is no literal, which no concatenation in canonical form
/// holds alone.
proof fn lemma_concat_is_no_group(fs: Seq<Regex>, g: Regex)
    requires
        tidy_factors(fs),
        tidy(g),
        g is Alt || g is Star,
        concat_keys(fs) == key(g),
    ensures
        fs.len() == 1,
        !(fs[0] is Char),
        !canonical(Regex::Concat(fs)),
{
    lemma_key_start(g);
    if solid(g) {
        let one = seq![g];
        assert(one[0] == g);
        assert(tidy_factors(one));
        assert(one.drop_last() =~= Seq::<Regex>::empty());
        assert(concat_keys(Seq::<Regex>::empty()) =~= Seq::<char>::empty());
        assert(concat_keys(one) =~= key(g));
        lemma_unique_factors(fs, one);
        lemma_key_start(fs[0]);
    } else {
        lemma_empty_group();
        assert(joined_keys(Seq::<Regex>::empty()) =~= Seq::<char>::empty());
        assert(key(g) =~= seq!['(', ')']);
        lemma_unique_factors(fs, seq![empty_group()]);
        lemma_key_start(fs[0]);
    }
}

/// Tidy expressions in canonical form with the same text accept the same
/// words.
pub proof fn lemma_same_key_whole(a: Regex, b: Regex, w: Seq<char>)
    requires
        tidy(a),
        canonical(a),
        !(a is Char),
        tidy(b),
        canonical(b),
        !(b is Char),
        key(a) == key(b),
    ensures
        accepts(a, w) <==> accepts(b, w),
{
    let k = key(a);
    match a {
        Regex::Alt(bs) => {
            assert(tidy_branches(bs));
            let n = joined_keys(bs).len() as int;
            assert(k[n + 1] == ')');
            match b {
                Regex::Alt(cs) => {
                    assert(tidy_branches(cs));
                    assert(joined_keys(bs) =~= k.subrange(1, k.len() - 1));
                    assert(joined_keys(cs) =~= key(b).subrange(1, k.len() - 1));
                    if bs.len() >= 2 {
                        lemma_joined_keys_bar(bs);
                    }
                    if cs.len() >= 2 {
                        lemma_joined_keys_bar(cs);
                    }
                    if bs.len() > 0 && cs.len() > 0 {
                        lemma_unique_branches(bs, cs);
                        lemma_same_keys_any(bs, cs, w);
                    } else {
                        assert(bar_free(Seq::<char>::empty()));
                        assert(bs.len() == 0 && cs.len() == 0);
                        assert(!accepts_any(bs, w) && !accepts_any(cs, w));
                    }
                },
                Regex::Concat(gs) => {
                    assert(tidy_factors(gs));
                    lemma_concat_is_no_group(gs, a);
                },
                Regex::Star(c) => {
                    let m = body_key(*c).len() as int;
                    assert(key(b)[m + 2] == '*');
                },
                _ => {},
            }
        },
        Regex::Concat(fs) => {
            assert(tidy_factors(fs));
            match b {
                Regex::Concat(gs) => {
                    assert(tidy_factors(gs));
                    lemma_unique_factors(fs, gs);
                    lemma_same_keys_all(fs, gs, w);
                },
                _ => {
                    lemma_concat_is_no_group(fs, b);
                },
            }
        },
        Regex::Star(x) => {
            let n = body_key(*x).len() as int;
            assert(k[n + 2] == '*');
            match b {
                Regex::Star(y) => {
                    assert(body_key(*x) =~= k.subrange(1, k.len() - 2));
                    assert(body_key(*y) =~= key(b).subrange(1, k.len() - 2));
                    lemma_same_key_star(*x, *y, w);
                    assert(a == star(*x));
                    assert(b == star(*y));
                },
                Regex::Concat(gs) => {
                    assert(tidy_factors(gs));
                    lemma_concat_is_no_group(gs, a);
                },
                Regex::Alt(cs) => {
                    let m = joined_keys(cs).len() as int;
                    assert(key(b)[m + 1] == ')');
                },
                _ => {},
            }
        },
        _ => {},
    }
}

/// Trees with the same canonical text accept the same words: where the
/// canonical forms of two plain trees are written alike, the trees denote
/// one language.
pub proof fn lemma_same_canonical_text(x: ParsingResult, y: ParsingResult, w: Seq<char>)
    requires
        plain(x@),
        plain(y@),
        key(canon(x@)) == key(canon(y@)),
    ensures
        accepts(x@, w) <==> accepts(y@, w),
{
    lemma_tree_tidy(x);
    lemma_tree_tidy(y);
    lemma_canon_normal(x@);
    lemma_canon_normal(y@);
    lemma_canon_accepts(x@, w);
    lemma_canon_accepts(y@, w);
    lemma_same_key_whole(canon(x@), canon(y@), w);
}

} // verus!
