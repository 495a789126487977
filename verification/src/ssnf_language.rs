//! Star normal form keeps the language of an expression.

use crate::language::{
    accepts, accepts_all, accepts_any, lemma_accepts_any_add, lemma_accepts_branches,
    lemma_accepts_single, lemma_all_within_star, lemma_concat_cut, lemma_concat_join,
    lemma_one_of_nullable, lemma_star_unit, lemma_star_within, star, within_star,
};
use crate::model::{all_nullable, branches_of, Regex};
use crate::ssnf::{lemma_ss_stripped, ss_of, ss_of_each, ssnf_of, ssnf_of_each};
use vstd::prelude::*;

verus! {

/// Whether the stripped form of an expression of `rs` accepts `w`.
pub open spec fn any_stripped(rs: Seq<Regex>, w: Seq<char>) -> bool {
    exists|i: int| 0 <= i < rs.len() && accepts(ss_of(#[trigger] rs[i]), w)
}

/// The branches that the stripped forms contribute accept what the stripped
/// forms accept.
proof fn lemma_ss_each_any(rs: Seq<Regex>, w: Seq<char>)
    ensures
        accepts_any(ss_of_each(rs), w) <==> any_stripped(rs, w),
    decreases rs.len(),
{
    if rs.len() > 0 {
        let front = rs.drop_last();
        let last = rs.last();
        lemma_ss_each_any(front, w);
        lemma_accepts_any_add(ss_of_each(front), branches_of(ss_of(last)), w);
        lemma_accepts_branches(ss_of(last), w);
        if any_stripped(rs, w) {
            let i = choose|i: int| 0 <= i < rs.len() && accepts(ss_of(#[trigger] rs[i]), w);
            if i < front.len() {
                assert(front[i] == rs[i]);
            }
        }
        if any_stripped(front, w) {
            let i = choose|i: int| 0 <= i < front.len() && accepts(ss_of(#[trigger] front[i]), w);
            assert(rs[i] == front[i]);
        }
        if accepts(ss_of(last), w) {
            assert(rs[rs.len() - 1] == last);
        }
    }
}

/// The star normal forms of `fs` accept, one after the other, what `fs`
/// accept one after the other.
proof fn lemma_ssnf_each_all(fs: Seq<Regex>, w: Seq<char>)
    ensures
        accepts_all(ssnf_of_each(fs), w) <==> accepts_all(fs, w),
    decreases fs, w.len(),
{
    if fs.len() > 0 {
        let out = ssnf_of_each(fs);
        let rest = fs.drop_first();
        assert(out.drop_first() =~= ssnf_of_each(rest));
        assert(out[0] == ssnf_of(fs[0]));
        if accepts_all(out, w) {
            let k = lemma_concat_cut(out, w);
            lemma_ssnf_accepts(fs[0], w.take(k));
            lemma_ssnf_each_all(rest, w.skip(k));
            lemma_concat_join(fs, w, k);
        }
        if accepts_all(fs, w) {
            let k = lemma_concat_cut(fs, w);
            lemma_ssnf_accepts(fs[0], w.take(k));
            lemma_ssnf_each_all(rest, w.skip(k));
            lemma_concat_join(out, w, k);
        }
    }
}

/// The star normal forms of `bs` accept what `bs` accept.
proof fn lemma_ssnf_each_any(bs: Seq<Regex>, w: Seq<char>)
    ensures
        accepts_any(ssnf_of_each(bs), w) <==> accepts_any(bs, w),
    decreases bs, w.len(),
{
    let out = ssnf_of_each(bs);
    if accepts_any(out, w) {
        let i = choose|i: int| 0 <= i < out.len() && accepts(#[trigger] out[i], w);
        lemma_ssnf_accepts(bs[i], w);
        assert(accepts(bs[i], w));
    }
    if accepts_any(bs, w) {
        let i = choose|i: int| 0 <= i < bs.len() && accepts(#[trigger] bs[i], w);
        lemma_ssnf_accepts(bs[i], w);
        assert(accepts(out[i], w));
    }
}

/// Every word of the stripped form of `r` is a word of `r`.
pub proof fn lemma_ss_sound(r: Regex, w: Seq<char>)
    requires
        accepts(ss_of(r), w),
    ensures
        accepts(r, w),
    decreases r, w.len(),
{
    match r {
        Regex::Alt(bs) => {
            assert(accepts_any(ss_of_each(bs), w));
            lemma_ss_each_any(bs, w);
            let i = choose|i: int| 0 <= i < bs.len() && accepts(ss_of(#[trigger] bs[i]), w);
            lemma_ss_sound(bs[i], w);
            assert(accepts_any(bs, w));
        },
        Regex::Concat(fs) => {
            if all_nullable(fs) {
                assert(accepts_any(ss_of_each(fs), w));
                lemma_ss_each_any(fs, w);
                let i = choose|i: int| 0 <= i < fs.len() && accepts(ss_of(#[trigger] fs[i]), w);
                lemma_ss_sound(fs[i], w);
                lemma_one_of_nullable(fs, i, w);
            } else {
                lemma_ssnf_each_all(fs, w);
            }
        },
        Regex::Star(b) => {
            lemma_ss_sound(*b, w);
            lemma_star_unit(*b, w);
        },
        Regex::Char(_) => {
            lemma_accepts_single(r, w);
        },
    }
}

/// Every word of the stripped form of an expression of `rs` is a word of
/// the star over the alternation of all their branches.
proof fn lemma_stripped_within(rs: Seq<Regex>, i: int)
    requires
        0 <= i < rs.len(),
    ensures
        within_star(ss_of(rs[i]), Regex::Alt(ss_of_each(rs))),
{
    let y = Regex::Alt(ss_of_each(rs));
    assert forall|u: Seq<char>| accepts(ss_of(rs[i]), u) implies #[trigger] accepts(star(y), u) by {
        lemma_ss_each_any(rs, u);
        assert(any_stripped(rs, u));
        lemma_star_unit(y, u);
    }
}

/// Every word of `r` is a word of the star over the stripped form of `r`.
pub proof fn lemma_ss_complete(r: Regex, w: Seq<char>)
    requires
        accepts(r, w),
    ensures
        accepts(star(ss_of(r)), w),
    decreases r, w.len(),
{
    match r {
        Regex::Alt(bs) => {
            assert(accepts_any(bs, w));
            let i = choose|i: int| 0 <= i < bs.len() && accepts(#[trigger] bs[i], w);
            lemma_ss_complete(bs[i], w);
            lemma_stripped_within(bs, i);
            lemma_star_within(ss_of(bs[i]), ss_of(r), w);
        },
        Regex::Concat(fs) => {
            if all_nullable(fs) {
                let y = ss_of(r);
                assert forall|i: int| 0 <= i < fs.len() implies within_star(#[trigger] fs[i], y) by {
                    lemma_stripped_within(fs, i);
                    assert forall|u: Seq<char>| accepts(fs[i], u) implies #[trigger] accepts(
                        star(y),
                        u,
                    ) by {
                        lemma_ss_complete(fs[i], u);
                        lemma_star_within(ss_of(fs[i]), y, u);
                    }
                }
                lemma_all_within_star(fs, y, w);
            } else {
                lemma_ssnf_each_all(fs, w);
                lemma_star_unit(ss_of(r), w);
            }
        },
        Regex::Star(b) => {
            assert(r == star(*b));
            assert forall|u: Seq<char>| accepts(*b, u) implies #[trigger] accepts(
                star(ss_of(*b)),
                u,
            ) by {
                lemma_ss_complete(*b, u);
            }
            lemma_star_within(*b, ss_of(*b), w);
        },
        Regex::Char(_) => {
            lemma_accepts_single(r, w);
            lemma_star_unit(ss_of(r), w);
        },
    }
}

/// The star normal form of `r` accepts exactly the words of `r`.
pub proof fn lemma_ssnf_accepts(r: Regex, w: Seq<char>)
    ensures
        accepts(ssnf_of(r), w) <==> accepts(r, w),
    decreases r, w.len(),
{
    match r {
        Regex::Alt(bs) => {
            lemma_ssnf_each_any(bs, w);
        },
        Regex::Concat(fs) => {
            lemma_ssnf_each_all(fs, w);
        },
        Regex::Star(b) => {
            let x = ss_of(*b);
            lemma_ss_stripped(*b);
            assert(ssnf_of(r) == star(x));
            assert(r == star(*b));
            if accepts(star(x), w) {
                assert forall|u: Seq<char>| accepts(x, u) implies #[trigger] accepts(
                    star(*b),
                    u,
                ) by {
                    lemma_ss_sound(*b, u);
                    lemma_star_unit(*b, u);
                }
                lemma_star_within(x, *b, w);
            }
            if accepts(star(*b), w) {
                assert forall|u: Seq<char>| accepts(*b, u) implies #[trigger] accepts(star(x), u) by {
                    lemma_ss_complete(*b, u);
                }
                lemma_star_within(*b, x, w);
            }
        },
        Regex::Char(_) => {},
    }
}

} // verus!
