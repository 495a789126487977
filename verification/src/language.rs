//! The language of an expression: the words that it accepts.

use crate::model::{all_nullable, any_nullable, branches_of, factors_of, nullable, Regex};
use vstd::prelude::*;

verus! {

/// Whether `r` accepts the word `w`. A literal accepts the word of that one
/// character, an alternation what one of its branches accepts, a
/// concatenation the words that fall into one part for each factor, and a
/// star the empty word and every word that starts with a word of the body,
/// not empty, and goes on with a word of the star.
pub open spec fn accepts(r: Regex, w: Seq<char>) -> bool
    decreases r, w.len(), 0int,
{
    match r {
        Regex::Alt(bs) => accepts_any(bs, w),
        Regex::Concat(fs) => accepts_all(fs, w),
        Regex::Star(b) => w.len() == 0 || exists|k: int|
            #[trigger] cut(w, k) && 0 < k && accepts(*b, w.take(k)) && accepts(r, w.skip(k)),
        Regex::Char(c) => w == seq![c],
    }
}

/// `k` is a place at which `w` can be cut in two.
pub open spec fn cut(w: Seq<char>, k: int) -> bool {
    0 <= k <= w.len()
}

/// Whether an expression of `bs` accepts `w`.
pub open spec fn accepts_any(bs: Seq<Regex>, w: Seq<char>) -> bool
    decreases bs, w.len(), 0int,
{
    exists|i: int| 0 <= i < bs.len() && accepts(#[trigger] bs[i], w)
}

/// Whether `w` falls into one word for each expression of `fs`, in order.
pub open spec fn accepts_all(fs: Seq<Regex>, w: Seq<char>) -> bool
    decreases fs, w.len(), 0int,
{
    if fs.len() == 0 {
        w.len() == 0
    } else {
        exists|k: int|
            #[trigger] cut(w, k) && accepts(fs[0], w.take(k)) && accepts_all(
                fs.drop_first(),
                w.skip(k),
            )
    }
}

/// The first `k` characters of `w` are a word of the first expression of
/// `fs`, and the others fall into one word for each of the other
/// expressions.
pub open spec fn concat_split(fs: Seq<Regex>, w: Seq<char>, k: int) -> bool {
    cut(w, k) && accepts(fs[0], w.take(k)) && accepts_all(fs.drop_first(), w.skip(k))
}

/// The first `k` characters of `w`, at least one, are a word of `body`, and
/// the others a word of the star over `body`.
pub open spec fn star_split(body: Regex, w: Seq<char>, k: int) -> bool {
    cut(w, k) && 0 < k && accepts(body, w.take(k)) && accepts(
        Regex::Star(Box::new(body)),
        w.skip(k),
    )
}

/// A word that falls into words for the expressions of `fs`, of which there
/// is one at least, does so at some cut.
pub proof fn lemma_concat_cut(fs: Seq<Regex>, w: Seq<char>) -> (k: int)
    requires
        fs.len() > 0,
        accepts_all(fs, w),
    ensures
        concat_split(fs, w, k),
{
    choose|k: int|
        #[trigger] cut(w, k) && accepts(fs[0], w.take(k)) && accepts_all(fs.drop_first(), w.skip(k))
}

/// A word that is cut into a word of the first expression of `fs` and words
/// for the others falls into words for `fs`.
pub proof fn lemma_concat_join(fs: Seq<Regex>, w: Seq<char>, k: int)
    requires
        fs.len() > 0,
        concat_split(fs, w, k),
    ensures
        accepts_all(fs, w),
{
}

/// A word of a star that is not empty is cut into a word of the body, not
/// empty, and a word of the star.
pub proof fn lemma_star_cut(body: Regex, w: Seq<char>) -> (k: int)
    requires
        w.len() > 0,
        accepts(Regex::Star(Box::new(body)), w),
    ensures
        star_split(body, w, k),
{
    let r = Regex::Star(Box::new(body));
    choose|k: int| #[trigger] cut(w, k) && 0 < k && accepts(body, w.take(k)) && accepts(r, w.skip(k))
}

/// A word that is cut into a word of the body, not empty, and a word of the
/// star is a word of the star.
pub proof fn lemma_star_join(body: Regex, w: Seq<char>, k: int)
    requires
        star_split(body, w, k),
    ensures
        accepts(Regex::Star(Box::new(body)), w),
{
}

/// An expression is nullable exactly if it accepts the empty word.
pub proof fn lemma_nullable_accepts(r: Regex)
    ensures
        nullable(r) <==> accepts(r, Seq::empty()),
    decreases r, 1int,
{
    let e = Seq::<char>::empty();
    match r {
        Regex::Alt(bs) => {
            assert forall|i: int| 0 <= i < bs.len() implies (nullable(#[trigger] bs[i])
                <==> accepts(bs[i], e)) by {
                lemma_nullable_accepts(bs[i]);
            }
            if any_nullable(bs) {
                let i = choose|i: int| 0 <= i < bs.len() && nullable(#[trigger] bs[i]);
                assert(accepts(bs[i], e));
            }
            if accepts_any(bs, e) {
                let i = choose|i: int| 0 <= i < bs.len() && accepts(#[trigger] bs[i], e);
                assert(nullable(bs[i]));
            }
        },
        Regex::Concat(fs) => {
            lemma_all_nullable_accepts(fs);
        },
        Regex::Star(_) => {},
        Regex::Char(c) => {
            assert(seq![c].len() == 1);
        },
    }
}

/// Every expression of `fs` is nullable exactly if the empty word falls
/// into one word for each.
pub proof fn lemma_all_nullable_accepts(fs: Seq<Regex>)
    ensures
        all_nullable(fs) <==> accepts_all(fs, Seq::empty()),
    decreases fs, 0int,
{
    let e = Seq::<char>::empty();
    if fs.len() > 0 {
        let rest = fs.drop_first();
        lemma_nullable_accepts(fs[0]);
        lemma_all_nullable_accepts(rest);
        assert(e.take(0) =~= e);
        assert(e.skip(0) =~= e);
        if all_nullable(fs) {
            assert(nullable(fs[0]));
            assert forall|i: int| 0 <= i < rest.len() implies nullable(#[trigger] rest[i]) by {
                assert(rest[i] == fs[i + 1]);
            }
            lemma_concat_join(fs, e, 0);
        }
        if accepts_all(fs, e) {
            let k = lemma_concat_cut(fs, e);
            assert(k == 0);
            assert forall|i: int| 0 <= i < fs.len() implies nullable(#[trigger] fs[i]) by {
                if i > 0 {
                    assert(rest[i - 1] == fs[i]);
                }
            }
        }
    }
}

/// One expression alone accepts the words that fall into a word for it.
pub proof fn lemma_accepts_single(r: Regex, w: Seq<char>)
    ensures
        accepts(r, w) <==> accepts_all(seq![r], w),
{
    let one = seq![r];
    let n = w.len() as int;
    assert(one[0] == r);
    assert(one.drop_first() =~= Seq::<Regex>::empty());
    assert(w.take(n) =~= w);
    assert(w.skip(n) =~= Seq::<char>::empty());
    if accepts(r, w) {
        assert(accepts_all(one.drop_first(), w.skip(n)));
        lemma_concat_join(one, w, n);
    }
    if accepts_all(one, w) {
        let k = lemma_concat_cut(one, w);
        assert(w.skip(k).len() == 0);
        assert(w.take(k) =~= w);
    }
}

/// An expression accepts what its factors accept one after the other.
pub proof fn lemma_accepts_factors(r: Regex, w: Seq<char>)
    ensures
        accepts(r, w) <==> accepts_all(factors_of(r), w),
{
    match r {
        Regex::Concat(_) => {},
        _ => {
            lemma_accepts_single(r, w);
        },
    }
}

/// An expression accepts what one of its branches accepts.
pub proof fn lemma_accepts_branches(r: Regex, w: Seq<char>)
    ensures
        accepts(r, w) <==> accepts_any(branches_of(r), w),
{
    match r {
        Regex::Alt(_) => {},
        _ => {
            let one = seq![r];
            assert(one[0] == r);
        },
    }
}

/// One of `a` and then `b` accepts a word exactly if one of `a` or one of
/// `b` does.
pub proof fn lemma_accepts_any_add(a: Seq<Regex>, b: Seq<Regex>, w: Seq<char>)
    ensures
        accepts_any(a + b, w) <==> accepts_any(a, w) || accepts_any(b, w),
{
    let c = a + b;
    if accepts_any(a, w) {
        let i = choose|i: int| 0 <= i < a.len() && accepts(#[trigger] a[i], w);
        assert(c[i] == a[i]);
    }
    if accepts_any(b, w) {
        let i = choose|i: int| 0 <= i < b.len() && accepts(#[trigger] b[i], w);
        assert(c[a.len() + i] == b[i]);
    }
    if accepts_any(c, w) {
        let i = choose|i: int| 0 <= i < c.len() && accepts(#[trigger] c[i], w);
        if i < a.len() {
            assert(c[i] == a[i]);
        } else {
            assert(c[i] == b[i - a.len()]);
        }
    }
}

/// A word falls into words for `a` and then `b` exactly if a start of it
/// falls into words for `a` and the rest of it into words for `b`.
pub open spec fn splits_at(a: Seq<Regex>, b: Seq<Regex>, w: Seq<char>, k: int) -> bool {
    0 <= k <= w.len() && accepts_all(a, w.take(k)) && accepts_all(b, w.skip(k))
}

/// A word that splits into words for `a` and words for `b` falls into
/// words for `a` and then `b`.
pub proof fn lemma_accepts_all_join(a: Seq<Regex>, b: Seq<Regex>, w: Seq<char>, k: int)
    requires
        splits_at(a, b, w, k),
    ensures
        accepts_all(a + b, w),
    decreases a.len(),
{
    if a.len() == 0 {
        assert(a + b =~= b);
        assert(w.skip(k) =~= w);
    } else {
        let u = w.take(k);
        let j = lemma_concat_cut(a, u);
        let ar = a.drop_first();
        let v = w.skip(j);
        assert(v.take(k - j) =~= u.skip(j));
        assert(v.skip(k - j) =~= w.skip(k));
        lemma_accepts_all_join(ar, b, v, k - j);
        assert((a + b).drop_first() =~= ar + b);
        assert((a + b)[0] == a[0]);
        assert(w.take(j) =~= u.take(j));
        lemma_concat_join(a + b, w, j);
    }
}

/// A word that falls into words for `a` and then `b` splits into words for
/// `a` and words for `b`.
pub proof fn lemma_accepts_all_split(a: Seq<Regex>, b: Seq<Regex>, w: Seq<char>) -> (k: int)
    requires
        accepts_all(a + b, w),
    ensures
        splits_at(a, b, w, k),
    decreases a.len(),
{
    if a.len() == 0 {
        assert(a + b =~= b);
        assert(w.take(0) =~= Seq::<char>::empty());
        assert(w.skip(0) =~= w);
        0
    } else {
        let j = lemma_concat_cut(a + b, w);
        let ar = a.drop_first();
        let v = w.skip(j);
        assert((a + b).drop_first() =~= ar + b);
        assert((a + b)[0] == a[0]);
        let m = lemma_accepts_all_split(ar, b, v);
        let k = j + m;
        let u = w.take(k);
        assert(u.take(j) =~= w.take(j));
        assert(u.skip(j) =~= v.take(m));
        assert(w.skip(k) =~= v.skip(m));
        lemma_concat_join(a, u, j);
        k
    }
}

/// The star over `x`.
pub open spec fn star(x: Regex) -> Regex {
    Regex::Star(Box::new(x))
}

/// Every word of `x` is a word of the star over `y`.
pub open spec fn within_star(x: Regex, y: Regex) -> bool {
    forall|u: Seq<char>| accepts(x, u) ==> #[trigger] accepts(star(y), u)
}

/// A star accepts the words of its body.
pub proof fn lemma_star_unit(x: Regex, w: Seq<char>)
    requires
        accepts(x, w),
    ensures
        accepts(star(x), w),
{
    if w.len() > 0 {
        let n = w.len() as int;
        assert(w.take(n) =~= w);
        assert(w.skip(n) =~= Seq::<char>::empty());
        assert(accepts(star(x), w.skip(n)));
        lemma_star_join(x, w, n);
    }
}

/// A star accepts a word of it followed by a word of it.
pub proof fn lemma_star_concat(x: Regex, u: Seq<char>, v: Seq<char>)
    requires
        accepts(star(x), u),
        accepts(star(x), v),
    ensures
        accepts(star(x), u + v),
    decreases u.len(),
{
    if u.len() == 0 {
        assert(u + v =~= v);
    } else {
        let k = lemma_star_cut(x, u);
        lemma_star_concat(x, u.skip(k), v);
        assert((u + v).take(k) =~= u.take(k));
        assert((u + v).skip(k) =~= u.skip(k) + v);
        lemma_star_join(x, u + v, k);
    }
}

/// Where every word of `x` is a word of the star over `y`, so is every word
/// of the star over `x`.
pub proof fn lemma_star_within(x: Regex, y: Regex, w: Seq<char>)
    requires
        within_star(x, y),
        accepts(star(x), w),
    ensures
        accepts(star(y), w),
    decreases w.len(),
{
    if w.len() > 0 {
        let k = lemma_star_cut(x, w);
        lemma_star_within(x, y, w.skip(k));
        assert(accepts(star(y), w.take(k)));
        lemma_star_concat(y, w.take(k), w.skip(k));
        assert(w.take(k) + w.skip(k) =~= w);
    }
}

/// Where every expression of `fs` has its words within the star over `y`,
/// every word that falls into words for `fs` is a word of that star.
pub proof fn lemma_all_within_star(fs: Seq<Regex>, y: Regex, w: Seq<char>)
    requires
        forall|i: int| 0 <= i < fs.len() ==> within_star(#[trigger] fs[i], y),
        accepts_all(fs, w),
    ensures
        accepts(star(y), w),
    decreases fs.len(),
{
    if fs.len() > 0 {
        let k = lemma_concat_cut(fs, w);
        let rest = fs.drop_first();
        assert forall|i: int| 0 <= i < rest.len() implies within_star(#[trigger] rest[i], y) by {
            assert(rest[i] == fs[i + 1]);
        }
        lemma_all_within_star(rest, y, w.skip(k));
        assert(within_star(fs[0], y));
        assert(accepts(star(y), w.take(k)));
        lemma_star_concat(y, w.take(k), w.skip(k));
        assert(w.take(k) + w.skip(k) =~= w);
    }
}

/// Where every expression of `fs` is nullable, a word of one of them falls
/// into words for all of them.
pub proof fn lemma_one_of_nullable(fs: Seq<Regex>, i: int, w: Seq<char>)
    requires
        all_nullable(fs),
        0 <= i < fs.len(),
        accepts(fs[i], w),
    ensures
        accepts_all(fs, w),
    decreases fs.len(),
{
    let rest = fs.drop_first();
    let e = Seq::<char>::empty();
    assert forall|j: int| 0 <= j < rest.len() implies nullable(#[trigger] rest[j]) by {
        assert(rest[j] == fs[j + 1]);
    }
    if i == 0 {
        let n = w.len() as int;
        lemma_all_nullable_accepts(rest);
        assert(w.take(n) =~= w);
        assert(w.skip(n) =~= e);
        lemma_concat_join(fs, w, n);
    } else {
        assert(rest[i - 1] == fs[i]);
        lemma_one_of_nullable(rest, i - 1, w);
        assert(nullable(fs[0]));
        lemma_nullable_accepts(fs[0]);
        assert(w.take(0) =~= e);
        assert(w.skip(0) =~= w);
        lemma_concat_join(fs, w, 0);
    }
}

} // verus!
