//! Tidy trees with the same text accept the same words.

use crate::balance::{
    bar_free, lemma_concat_keys_bar_free, lemma_concat_keys_start, lemma_joined_keys_bar, lemma_key_start,
    lemma_unique_branches, lemma_unique_factors,
};
use crate::language::{
    accepts, accepts_all, accepts_any, lemma_accepts_single, lemma_concat_cut, lemma_concat_join,
    lemma_star_cut, lemma_star_unit, lemma_star_within, star, within_star,
};
use crate::model::{body_key, concat_keys, joined_keys, key, Regex};
use crate::tidy::{solid, tidy, tidy_branches, tidy_factors};
use vstd::prelude::*;

verus! {

/// `f` is a tidy factor.
pub open spec fn tidy_factor(f: Regex) -> bool {
    tidy(f) && !(f is Concat) && solid(f)
}

/// `x` is a tidy branch.
pub open spec fn tidy_branch(x: Regex) -> bool {
    tidy(x) && (x is Concat || x is Star)
}

/// `b` is a tidy body of a star.
pub open spec fn tidy_body(b: Regex) -> bool {
    tidy(b) && (b is Alt || b is Concat)
}

/// `x` and `y` accept the same words.
pub open spec fn same_words(x: Regex, y: Regex) -> bool {
    forall|u: Seq<char>|
        #![trigger accepts(x, u)]
        #![trigger accepts(y, u)]
        accepts(x, u) == accepts(y, u)
}

/// `x` accepts no word but the empty one.
pub open spec fn only_empty(x: Regex) -> bool {
    forall|u: Seq<char>| #[trigger] accepts(x, u) ==> u.len() == 0
}

/// The stars over expressions that accept the same words accept the same
/// words.
pub proof fn lemma_star_same(x: Regex, y: Regex, w: Seq<char>)
    requires
        same_words(x, y),
    ensures
        accepts(star(x), w) <==> accepts(star(y), w),
{
    assert(within_star(x, y)) by {
        assert forall|u: Seq<char>| accepts(x, u) implies #[trigger] accepts(star(y), u) by {
            lemma_star_unit(y, u);
        }
    }
    assert(within_star(y, x)) by {
        assert forall|u: Seq<char>| accepts(y, u) implies #[trigger] accepts(star(x), u) by {
            lemma_star_unit(x, u);
        }
    }
    if accepts(star(x), w) {
        lemma_star_within(x, y, w);
    }
    if accepts(star(y), w) {
        lemma_star_within(y, x, w);
    }
}

/// The star over an expression that accepts no word but the empty one
/// accepts the empty word only.
pub proof fn lemma_star_only_empty(x: Regex, w: Seq<char>)
    requires
        only_empty(x),
    ensures
        accepts(star(x), w) <==> w.len() == 0,
{
    if w.len() > 0 && accepts(star(x), w) {
        let k = lemma_star_cut(x, w);
        assert(accepts(x, w.take(k)));
    }
}

/// A tidy body with the empty text accepts no word but the empty one.
proof fn lemma_empty_body(b: Regex)
    requires
        tidy_body(b),
        body_key(b).len() == 0,
    ensures
        only_empty(b),
{
    match b {
        Regex::Alt(bs) => {
            assert(tidy_branches(bs));
            if bs.len() >= 2 {
                lemma_joined_keys_bar(bs);
                assert(bar_free(joined_keys(bs)));
            }
            if bs.len() == 1 {
                let x = bs[0];
                assert(joined_keys(bs) == key(x));
                lemma_empty_branch(x);
                assert forall|u: Seq<char>| #[trigger] accepts(b, u) implies u.len() == 0 by {
                    assert(accepts_any(bs, u));
                    let i = choose|i: int| 0 <= i < bs.len() && accepts(#[trigger] bs[i], u);
                    assert(accepts(x, u));
                }
            } else {
                assert forall|u: Seq<char>| #[trigger] accepts(b, u) implies u.len() == 0 by {
                    assert(accepts_any(bs, u));
                }
            }
        },
        Regex::Concat(fs) => {
            lemma_empty_branch(b);
        },
        _ => {},
    }
}

/// A tidy branch with the empty text is the empty concatenation.
proof fn lemma_empty_branch(x: Regex)
    requires
        tidy_branch(x) || (tidy(x) && x is Concat),
        key(x).len() == 0,
    ensures
        only_empty(x),
{
    match x {
        Regex::Concat(fs) => {
            assert(tidy_factors(fs));
            lemma_concat_keys_start(fs);
            assert forall|u: Seq<char>| #[trigger] accepts(x, u) implies u.len() == 0 by {
                assert(accepts_all(fs, u));
            }
        },
        _ => {
            lemma_key_start(x);
        },
    }
}

/// Tidy factors with the same text accept the same words.
pub proof fn lemma_same_key_factor(f: Regex, g: Regex, w: Seq<char>)
    requires
        tidy_factor(f),
        tidy_factor(g),
        key(f) == key(g),
    ensures
        accepts(f, w) <==> accepts(g, w),
    decreases f, 0int,
{
    lemma_key_start(f);
    lemma_key_start(g);
    let k = key(f);
    match f {
        Regex::Char(c) => {
            assert(k[0] == c);
            match g {
                Regex::Char(d) => {
                    assert(key(g)[0] == d);
                },
                _ => {},
            }
        },
        Regex::Alt(bs) => {
            let n = joined_keys(bs).len() as int;
            assert(k[n + 1] == ')');
            match g {
                Regex::Alt(cs) => {
                    assert(tidy_branches(bs));
                    assert(tidy_branches(cs));
                    assert(joined_keys(bs) =~= k.subrange(1, k.len() - 1));
                    assert(joined_keys(cs) =~= key(g).subrange(1, k.len() - 1));
                    lemma_unique_branches(bs, cs);
                    lemma_same_keys_any(bs, cs, w);
                },
                Regex::Star(c) => {
                    let m = body_key(*c).len() as int;
                    assert(key(g)[m + 2] == '*');
                },
                _ => {},
            }
        },
        Regex::Star(b) => {
            let n = body_key(*b).len() as int;
            assert(k[n + 2] == '*');
            match g {
                Regex::Star(c) => {
                    assert(body_key(*b) =~= k.subrange(1, k.len() - 2));
                    assert(body_key(*c) =~= key(g).subrange(1, k.len() - 2));
                    lemma_same_key_star(*b, *c, w);
                    assert(f == star(*b));
                    assert(g == star(*c));
                },
                Regex::Alt(cs) => {
                    let m = joined_keys(cs).len() as int;
                    assert(key(g)[m + 1] == ')');
                },
                _ => {},
            }
        },
        _ => {},
    }
}

/// Tidy branches with the same text accept the same words.
pub proof fn lemma_same_key_branch(x: Regex, y: Regex, w: Seq<char>)
    requires
        tidy_branch(x),
        tidy_branch(y),
        key(x) == key(y),
    ensures
        accepts(x, w) <==> accepts(y, w),
    decreases x, 1int,
{
    match x {
        Regex::Concat(fs) => {
            assert(tidy_factors(fs));
            match y {
                Regex::Concat(gs) => {
                    assert(tidy_factors(gs));
                    lemma_unique_factors(fs, gs);
                    lemma_same_keys_all(fs, gs, w);
                },
                _ => {
                    let one = seq![y];
                    lemma_single_factor(y);
                    lemma_unique_factors(fs, one);
                    assert(fs =~= seq![fs[0]]);
                    lemma_same_key_factor(fs[0], y, w);
                    lemma_accepts_single(fs[0], w);
                },
            }
        },
        _ => {
            match y {
                Regex::Concat(gs) => {
                    assert(tidy_factors(gs));
                    let one = seq![x];
                    lemma_single_factor(x);
                    lemma_unique_factors(gs, one);
                    assert(gs =~= seq![gs[0]]);
                    lemma_same_key_factor(x, gs[0], w);
                    lemma_accepts_single(gs[0], w);
                },
                _ => {
                    lemma_same_key_factor(x, y, w);
                },
            }
        },
    }
}

/// A star alone is a list of tidy factors with the text of the star.
proof fn lemma_single_factor(x: Regex)
    requires
        tidy(x),
        x is Star,
    ensures
        tidy_factors(seq![x]),
        concat_keys(seq![x]) == key(x),
{
    let one = seq![x];
    assert(one[0] == x);
    assert(one.drop_last() =~= Seq::<Regex>::empty());
    assert(concat_keys(Seq::<Regex>::empty()) =~= Seq::<char>::empty());
    assert(concat_keys(one) =~= key(x));
}

/// The stars over tidy bodies with the same text accept the same words.
pub proof fn lemma_same_key_star(b: Regex, c: Regex, w: Seq<char>)
    requires
        tidy_body(b),
        tidy_body(c),
        body_key(b) == body_key(c),
    ensures
        accepts(star(b), w) <==> accepts(star(c), w),
    decreases b, 2int,
{
    if body_key(b).len() == 0 {
        lemma_empty_body(b);
        lemma_empty_body(c);
        lemma_star_only_empty(b, w);
        lemma_star_only_empty(c, w);
    } else {
        match b {
            Regex::Alt(bs) => {
                assert(tidy_branches(bs));
                match c {
                    Regex::Alt(cs) => {
                        assert(tidy_branches(cs));
                        lemma_unique_branches(bs, cs);
                        assert forall|u: Seq<char>| accepts(b, u) == accepts(c, u) by {
                            lemma_same_keys_any(bs, cs, u);
                        }
                    },
                    Regex::Concat(gs) => {
                        assert(tidy_factors(gs));
                        if bs.len() >= 2 {
                            lemma_joined_keys_bar(bs);
                            lemma_concat_keys_bar_free(gs);
                        }
                        assert(joined_keys(bs) == key(bs[0]));
                        assert forall|u: Seq<char>| accepts(b, u) == accepts(c, u) by {
                            lemma_same_key_branch(bs[0], c, u);
                            if accepts(b, u) {
                                assert(accepts_any(bs, u));
                                let i = choose|i: int|
                                    0 <= i < bs.len() && accepts(#[trigger] bs[i], u);
                                assert(accepts(bs[0], u));
                            }
                            if accepts(bs[0], u) {
                                assert(accepts_any(bs, u));
                            }
                        }
                    },
                    _ => {},
                }
            },
            Regex::Concat(fs) => {
                assert(tidy_factors(fs));
                match c {
                    Regex::Concat(gs) => {
                        assert(tidy_factors(gs));
                        lemma_unique_factors(fs, gs);
                        assert forall|u: Seq<char>| accepts(b, u) == accepts(c, u) by {
                            lemma_same_keys_all(fs, gs, u);
                        }
                    },
                    Regex::Alt(cs) => {
                        assert(tidy_branches(cs));
                        if cs.len() >= 2 {
                            lemma_joined_keys_bar(cs);
                            lemma_concat_keys_bar_free(fs);
                        }
                        assert(joined_keys(cs) == key(cs[0]));
                        assert forall|u: Seq<char>| accepts(b, u) == accepts(c, u) by {
                            lemma_same_key_branch(b, cs[0], u);
                            if accepts(c, u) {
                                assert(accepts_any(cs, u));
                                let i = choose|i: int|
                                    0 <= i < cs.len() && accepts(#[trigger] cs[i], u);
                                assert(accepts(cs[0], u));
                            }
                            if accepts(cs[0], u) {
                                assert(accepts_any(cs, u));
                            }
                        }
                    },
                    _ => {},
                }
            },
            _ => {},
        }
        lemma_star_same(b, c, w);
    }
}

/// Lists of tidy factors with the same texts one by one accept the same
/// words one after the other.
pub proof fn lemma_same_keys_all(fs: Seq<Regex>, gs: Seq<Regex>, w: Seq<char>)
    requires
        tidy_factors(fs),
        tidy_factors(gs),
        fs.len() == gs.len(),
        forall|j: int| 0 <= j < fs.len() ==> key(#[trigger] fs[j]) == key(gs[j]),
    ensures
        accepts_all(fs, w) <==> accepts_all(gs, w),
    decreases fs, 0int,
{
    if fs.len() > 0 {
        let fr = fs.drop_first();
        let gr = gs.drop_first();
        assert forall|i: int| 0 <= i < fr.len() implies tidy_factor(#[trigger] fr[i]) && key(fr[i])
            == key(gr[i]) by {
            assert(fr[i] == fs[i + 1]);
            assert(gr[i] == gs[i + 1]);
        }
        assert forall|i: int| 0 <= i < gr.len() implies tidy_factor(#[trigger] gr[i]) by {
            assert(gr[i] == gs[i + 1]);
        }
        assert(tidy_factor(fs[0]) && tidy_factor(gs[0]));
        if accepts_all(fs, w) {
            let k = lemma_concat_cut(fs, w);
            lemma_same_key_factor(fs[0], gs[0], w.take(k));
            lemma_same_keys_all(fr, gr, w.skip(k));
            lemma_concat_join(gs, w, k);
        }
        if accepts_all(gs, w) {
            let k = lemma_concat_cut(gs, w);
            lemma_same_key_factor(fs[0], gs[0], w.take(k));
            lemma_same_keys_all(fr, gr, w.skip(k));
            lemma_concat_join(fs, w, k);
        }
    }
}

/// Lists of tidy branches with the same texts one by one accept the same
/// words.
pub proof fn lemma_same_keys_any(bs: Seq<Regex>, cs: Seq<Regex>, w: Seq<char>)
    requires
        tidy_branches(bs),
        tidy_branches(cs),
        bs.len() == cs.len(),
        forall|j: int| 0 <= j < bs.len() ==> key(#[trigger] bs[j]) == key(cs[j]),
    ensures
        accepts_any(bs, w) <==> accepts_any(cs, w),
    decreases bs, 0int,
{
    if accepts_any(bs, w) {
        let i = choose|i: int| 0 <= i < bs.len() && accepts(#[trigger] bs[i], w);
        assert(tidy_branch(bs[i]) && tidy_branch(cs[i]));
        lemma_same_key_branch(bs[i], cs[i], w);
    }
    if accepts_any(cs, w) {
        let i = choose|i: int| 0 <= i < cs.len() && accepts(#[trigger] cs[i], w);
        assert(tidy_branch(bs[i]) && tidy_branch(cs[i]));
        lemma_same_key_branch(bs[i], cs[i], w);
    }
}

} // verus!
