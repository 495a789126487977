//! The derivative of an expression by a symbol accepts exactly what is left
//! of the words of the expression that start with the symbol.

use crate::derivative::{
    before_factors, before_star, derivative, derive_branches, derive_factors, union_of,
};
use crate::language::{
    accepts, accepts_all, accepts_any, cut, lemma_accepts_all_join, lemma_accepts_all_split,
    lemma_accepts_any_add, lemma_accepts_branches, lemma_accepts_factors, lemma_accepts_single,
    lemma_concat_cut, lemma_concat_join, lemma_nullable_accepts, lemma_star_cut,
    lemma_star_join, splits_at,
};
use crate::model::{branches_of, epsilon, factors_of, nullable, Regex};
use vstd::prelude::*;

verus! {

/// Whether `d` is an expression that accepts `w`; nothing accepts no word.
pub open spec fn accepts_some(d: Option<Regex>, w: Seq<char>) -> bool {
    d matches Some(r) && accepts(r, w)
}

/// The first `k` characters of `w` are a word of `d`, and the others fall
/// into one word for each expression of `rest`.
pub open spec fn follows(d: Option<Regex>, rest: Seq<Regex>, w: Seq<char>, k: int) -> bool {
    cut(w, k) && accepts_some(d, w.take(k)) && accepts_all(rest, w.skip(k))
}

proof fn lemma_after_take(c: char, w: Seq<char>, j: int)
    requires
        0 < j <= w.len() + 1,
    ensures
        (seq![c] + w).take(j) == seq![c] + w.take(j - 1),
        (seq![c] + w).skip(j) == w.skip(j - 1),
        (seq![c] + w).take(0) == Seq::<char>::empty(),
        (seq![c] + w).skip(0) == seq![c] + w,
{
    let cw = seq![c] + w;
    assert(cw.take(j) =~= seq![c] + w.take(j - 1));
    assert(cw.skip(j) =~= w.skip(j - 1));
    assert(cw.take(0) =~= Seq::<char>::empty());
    assert(cw.skip(0) =~= cw);
}

/// The union of branches accepts what one of them accepts.
proof fn lemma_union_accepts(bs: Seq<Regex>, w: Seq<char>)
    ensures
        accepts_some(union_of(bs), w) <==> accepts_any(bs, w),
{
    if bs.len() == 1 {
        if accepts_any(bs, w) {
            let i = choose|i: int| 0 <= i < bs.len() && accepts(#[trigger] bs[i], w);
            assert(i == 0);
        }
        if accepts(bs[0], w) {
            assert(accepts_any(bs, w));
        }
    }
}

/// What a factor's derivative contributes before the factors behind it
/// accepts the words that start with a word of the derivative and go on
/// with words for those factors.
proof fn lemma_before_factors_join(d: Option<Regex>, rest: Seq<Regex>, w: Seq<char>, k: int)
    requires
        follows(d, rest, w, k),
    ensures
        accepts_any(before_factors(d, rest), w),
{
    let r = d->Some_0;
    if rest.len() == 0 {
        assert(w.take(k) =~= w);
        lemma_accepts_branches(r, w);
    } else {
        lemma_accepts_factors(r, w.take(k));
        lemma_accepts_all_join(factors_of(r), rest, w, k);
        let whole = Regex::Concat(factors_of(r) + rest);
        assert(before_factors(d, rest)[0] == whole);
    }
}

proof fn lemma_before_factors_cut(d: Option<Regex>, rest: Seq<Regex>, w: Seq<char>) -> (k: int)
    requires
        accepts_any(before_factors(d, rest), w),
    ensures
        follows(d, rest, w, k),
{
    let r = d->Some_0;
    if rest.len() == 0 {
        lemma_accepts_branches(r, w);
        let n = w.len() as int;
        assert(w.take(n) =~= w);
        assert(w.skip(n) =~= Seq::<char>::empty());
        n
    } else {
        let one = before_factors(d, rest);
        let i = choose|i: int| 0 <= i < one.len() && accepts(#[trigger] one[i], w);
        assert(one[i] == Regex::Concat(factors_of(r) + rest));
        let k = lemma_accepts_all_split(factors_of(r), rest, w);
        lemma_accepts_factors(r, w.take(k));
        k
    }
}

/// The derivative of `r` by `c` accepts `w` exactly if `r` accepts `c`
/// followed by `w`.
pub proof fn lemma_derive_accepts(r: Regex, c: char, w: Seq<char>)
    ensures
        accepts_some(derivative(r, c), w) <==> accepts(r, seq![c] + w),
    decreases r, 0int,
{
    let cw = seq![c] + w;
    match r {
        Regex::Alt(bs) => {
            lemma_derive_branches_accepts(bs, c, w);
            lemma_union_accepts(derive_branches(bs, c), w);
            assert(accepts_some(derivative(r, c), w) <==> accepts(r, cw));
        },
        Regex::Concat(fs) => {
            lemma_derive_factors_accepts(fs, 0, c, w);
            lemma_union_accepts(derive_factors(fs, 0, c), w);
            assert(fs.skip(0) =~= fs);
            assert(accepts_some(derivative(r, c), w) <==> accepts(r, cw));
        },
        Regex::Star(b) => {
            assert(r == Regex::Star(Box::new(*b)));
            if accepts(r, cw) {
                let k = lemma_star_cut(*b, cw);
                lemma_after_take(c, w, k);
                lemma_derive_accepts(*b, c, w.take(k - 1));
                let d = derivative(*b, c)->Some_0;
                if d == epsilon() {
                    assert(accepts_all(Seq::<Regex>::empty(), w.take(k - 1)));
                    assert(w.take(k - 1).len() == 0);
                    assert(w.skip(k - 1) =~= w);
                } else {
                    lemma_accepts_factors(d, w.take(k - 1));
                    lemma_accepts_single(r, w.skip(k - 1));
                    lemma_accepts_all_join(factors_of(d), seq![r], w, k - 1);
                    assert(factors_of(d).push(r) =~= factors_of(d) + seq![r]);
                }
            }
            if accepts_some(derivative(r, c), w) {
                let d = derivative(*b, c)->Some_0;
                if d == epsilon() {
                    let e = Seq::<char>::empty();
                    assert(accepts_all(Seq::<Regex>::empty(), e));
                    assert(accepts(d, e));
                    lemma_derive_accepts(*b, c, e);
                    lemma_after_take(c, w, 1);
                    assert(seq![c] + e =~= seq![c]);
                    assert(w.take(0) =~= e);
                    assert(w.skip(0) =~= w);
                    assert(cw.take(1) =~= seq![c]);
                    lemma_star_join(*b, cw, 1);
                } else {
                    assert(factors_of(d).push(r) =~= factors_of(d) + seq![r]);
                    let m = lemma_accepts_all_split(factors_of(d), seq![r], w);
                    lemma_accepts_factors(d, w.take(m));
                    lemma_accepts_single(r, w.skip(m));
                    lemma_derive_accepts(*b, c, w.take(m));
                    lemma_after_take(c, w, m + 1);
                    lemma_star_join(*b, cw, m + 1);
                }
            }
        },
        Regex::Char(x) => {
            assert(accepts(epsilon(), w) <==> accepts_all(Seq::<Regex>::empty(), w));
            if x == c && w.len() == 0 {
                assert(cw =~= seq![x]);
            }
            if cw == seq![x] {
                assert(cw[0] == c);
                assert(seq![x][0] == x);
                assert(cw.len() == 1);
            }
        },
    }
}

/// What the derivatives of the branches contribute accepts `w` exactly if a
/// branch accepts `c` followed by `w`.
proof fn lemma_derive_branches_accepts(bs: Seq<Regex>, c: char, w: Seq<char>)
    ensures
        accepts_any(derive_branches(bs, c), w) <==> accepts_any(bs, seq![c] + w),
    decreases bs, 0int,
{
    let cw = seq![c] + w;
    if bs.len() > 0 {
        let front = bs.drop_last();
        let last = bs.last();
        let added = match derivative(last, c) {
            Some(d) => branches_of(d),
            None => Seq::empty(),
        };
        lemma_derive_branches_accepts(front, c, w);
        lemma_derive_accepts(last, c, w);
        lemma_accepts_any_add(derive_branches(front, c), added, w);
        match derivative(last, c) {
            Some(d) => {
                lemma_accepts_branches(d, w);
            },
            None => {},
        }
        assert(accepts_any(added, w) <==> accepts(last, cw));
        if accepts_any(bs, cw) {
            let i = choose|i: int| 0 <= i < bs.len() && accepts(#[trigger] bs[i], cw);
            if i < front.len() {
                assert(front[i] == bs[i]);
            }
        }
        if accepts_any(front, cw) {
            let i = choose|i: int| 0 <= i < front.len() && accepts(#[trigger] front[i], cw);
            assert(bs[i] == front[i]);
        }
        if accepts(last, cw) {
            assert(bs[bs.len() - 1] == last);
        }
    }
}

/// What the factors from index `k` on contribute accepts `w` exactly if `c`
/// followed by `w` falls into one word for each of those factors.
proof fn lemma_derive_factors_accepts(fs: Seq<Regex>, k: int, c: char, w: Seq<char>)
    requires
        0 <= k <= fs.len(),
    ensures
        accepts_any(derive_factors(fs, k, c), w) <==> accepts_all(fs.skip(k), seq![c] + w),
    decreases fs, fs.len() - k,
{
    let cw = seq![c] + w;
    let here = fs.skip(k);
    if k < fs.len() {
        let rest = fs.subrange(k + 1, fs.len() as int);
        let first = before_factors(derivative(fs[k], c), rest);
        let others = if nullable(fs[k]) {
            derive_factors(fs, k + 1, c)
        } else {
            Seq::empty()
        };
        assert(here[0] == fs[k]);
        assert(here.drop_first() =~= rest);
        assert(fs.skip(k + 1) =~= rest);
        lemma_accepts_any_add(first, others, w);
        lemma_nullable_accepts(fs[k]);
        lemma_derive_factors_accepts(fs, k + 1, c, w);
        if accepts_all(here, cw) {
            let j = lemma_concat_cut(here, cw);
            if j == 0 {
                lemma_after_take(c, w, 1);
            } else {
                lemma_after_take(c, w, j);
                lemma_derive_accepts(fs[k], c, w.take(j - 1));
                lemma_before_factors_join(derivative(fs[k], c), rest, w, j - 1);
            }
        }
        if accepts_any(first, w) {
            let j = lemma_before_factors_cut(derivative(fs[k], c), rest, w);
            lemma_derive_accepts(fs[k], c, w.take(j));
            lemma_after_take(c, w, j + 1);
            lemma_concat_join(here, cw, j + 1);
        }
        if accepts_any(others, w) {
            lemma_after_take(c, w, 1);
            lemma_concat_join(here, cw, 0);
        }
    } else {
        assert(here =~= Seq::<Regex>::empty());
    }
}

} // verus!
