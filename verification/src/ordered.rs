//! What canonicalization guarantees of every tree: alternations are
//! ordered, without two branches of one key and never of one branch.

use crate::aci::{
    all_concat, canon, canon_alt, canon_branches, canon_factors, common_prefix_from,
    common_suffix_from, factored, middle_of, middles, sorted_unique,
};
use crate::canonical::lemma_draw_bounds;
use crate::model::{branches_of, factors_of, pack_branches, star_of, unwrap_single, Regex};
use crate::unique::{is_among, lemma_sorted_unique, strictly_sorted};
use vstd::prelude::*;

verus! {

/// In every alternation of `r` the keys of the branches rise strictly, so
/// that no two branches have the same key, and no alternation has one
/// branch alone.
pub open spec fn ordered(r: Regex) -> bool
    decreases r,
{
    match r {
        Regex::Alt(bs) => strictly_sorted(bs) && bs.len() != 1 && ordered_each(bs),
        Regex::Concat(fs) => ordered_each(fs),
        Regex::Star(b) => ordered(*b),
        Regex::Char(_) => true,
    }
}

/// Every expression of `rs` is ordered.
pub open spec fn ordered_each(rs: Seq<Regex>) -> bool
    decreases rs,
{
    forall|i: int| 0 <= i < rs.len() ==> ordered(#[trigger] rs[i])
}

proof fn lemma_branches_ordered(m: Regex)
    requires
        ordered(m),
    ensures
        ordered_each(branches_of(m)),
{
    match m {
        Regex::Alt(bs) => {
            assert(ordered_each(bs));
        },
        _ => {
            assert(branches_of(m)[0] == m);
        },
    }
}

proof fn lemma_factors_ordered(m: Regex)
    requires
        ordered(m),
    ensures
        ordered_each(factors_of(m)),
{
    match m {
        Regex::Concat(fs) => {
            assert(ordered_each(fs));
        },
        _ => {
            assert(factors_of(m)[0] == m);
        },
    }
}

proof fn lemma_ordered_add(a: Seq<Regex>, b: Seq<Regex>)
    requires
        ordered_each(a),
        ordered_each(b),
    ensures
        ordered_each(a + b),
{
    let c = a + b;
    assert forall|i: int| 0 <= i < c.len() implies ordered(#[trigger] c[i]) by {
        if i < a.len() {
            assert(c[i] == a[i]);
        } else {
            assert(c[i] == b[i - a.len()]);
        }
    }
}

proof fn lemma_ordered_subrange(fs: Seq<Regex>, from: int, to: int)
    requires
        ordered_each(fs),
        0 <= from <= to <= fs.len(),
    ensures
        ordered_each(fs.subrange(from, to)),
{
    let sub = fs.subrange(from, to);
    assert forall|i: int| 0 <= i < sub.len() implies ordered(#[trigger] sub[i]) by {
        assert(sub[i] == fs[from + i]);
    }
}

proof fn lemma_unwrap_ordered(fs: Seq<Regex>)
    requires
        ordered_each(fs),
    ensures
        ordered(unwrap_single(Regex::Concat(fs))),
{
    if fs.len() == 1 && !(fs[0] is Char) {
        assert(ordered(fs[0]));
    }
}

/// The ordered, unique list of ordered expressions is an ordered
/// alternation unless it holds one expression.
proof fn lemma_sorted_unique_ordered(xs: Seq<Regex>)
    requires
        ordered_each(xs),
    ensures
        ordered_each(sorted_unique(xs)),
        strictly_sorted(sorted_unique(xs)),
{
    let u = sorted_unique(xs);
    lemma_sorted_unique(xs);
    assert forall|n: int| 0 <= n < u.len() implies ordered(#[trigger] u[n]) by {
        assert(is_among(u[n], xs));
        let j = choose|j: int| 0 <= j < xs.len() && #[trigger] xs[j] == u[n];
        assert(ordered(xs[j]));
    }
}

proof fn lemma_middles_ordered(u: Seq<Regex>, h: int, t: int)
    requires
        ordered_each(u),
        0 <= h,
        0 <= t,
        forall|i: int| 0 <= i < u.len() ==> h + t <= factors_of(#[trigger] u[i]).len(),
    ensures
        ordered_each(middles(u, h, t)),
    decreases u.len(),
{
    if u.len() > 0 {
        let front = u.drop_last();
        let last = u.last();
        assert forall|i: int| 0 <= i < front.len() implies ordered(#[trigger] front[i]) && h + t
            <= factors_of(front[i]).len() by {
            assert(front[i] == u[i]);
        }
        lemma_middles_ordered(front, h, t);
        assert(u[u.len() - 1] == last);
        let fs = factors_of(last);
        lemma_factors_ordered(last);
        lemma_ordered_subrange(fs, h, fs.len() - t);
        lemma_unwrap_ordered(fs.subrange(h, fs.len() - t));
        lemma_branches_ordered(middle_of(last, h, t));
        lemma_ordered_add(middles(front, h, t), branches_of(middle_of(last, h, t)));
    }
}

proof fn lemma_factored_ordered(u: Seq<Regex>)
    requires
        u.len() > 0,
        ordered_each(u),
    ensures
        ordered(factored(u, common_prefix_from(u, 0), common_suffix_from(u, common_prefix_from(u, 0), 0))),
{
    let h = common_prefix_from(u, 0);
    let t = common_suffix_from(u, h, 0);
    let inner = sorted_unique(middles(u, h, t));
    let first = factors_of(u[0]);
    lemma_draw_bounds(u);
    lemma_middles_ordered(u, h, t);
    lemma_sorted_unique_ordered(middles(u, h, t));
    let mid = if inner.len() == 1 {
        factors_of(inner[0])
    } else {
        seq![Regex::Alt(inner)]
    };
    assert(ordered_each(mid)) by {
        if inner.len() == 1 {
            lemma_factors_ordered(inner[0]);
        } else {
            assert(ordered(Regex::Alt(inner)));
            assert(mid[0] == Regex::Alt(inner));
        }
    }
    assert(ordered(u[0]));
    lemma_factors_ordered(u[0]);
    assert(h + t <= first.len());
    lemma_ordered_subrange(first, 0, h);
    lemma_ordered_subrange(first, first.len() - t, first.len() as int);
    lemma_ordered_add(first.subrange(0, h), mid);
    lemma_ordered_add(first.subrange(0, h) + mid, first.subrange(first.len() - t, first.len() as int));
    lemma_unwrap_ordered(
        first.subrange(0, h) + mid + first.subrange(first.len() - t, first.len() as int),
    );
}

proof fn lemma_canon_alt_ordered(xs: Seq<Regex>)
    requires
        ordered_each(xs),
    ensures
        ordered(canon_alt(xs)),
{
    let u = sorted_unique(xs);
    lemma_sorted_unique_ordered(xs);
    if u.len() <= 1 || !all_concat(u) {
        if u.len() == 1 {
            assert(ordered(u[0]));
        } else {
            assert(ordered(Regex::Alt(u)));
        }
    } else {
        let h = common_prefix_from(u, 0);
        let t = common_suffix_from(u, h, 0);
        if h == 0 && t == 0 {
            assert(ordered(Regex::Alt(u)));
        } else {
            lemma_factored_ordered(u);
        }
    }
}

proof fn lemma_canon_branches_ordered(bs: Seq<Regex>)
    ensures
        ordered_each(canon_branches(bs)),
    decreases bs, 0int,
{
    if bs.len() > 0 {
        lemma_canon_branches_ordered(bs.drop_last());
        lemma_canon_ordered(bs.last());
        lemma_branches_ordered(canon(bs.last()));
        lemma_ordered_add(canon_branches(bs.drop_last()), branches_of(canon(bs.last())));
    }
}

proof fn lemma_canon_factors_ordered(fs: Seq<Regex>)
    ensures
        ordered_each(canon_factors(fs)),
    decreases fs, 0int,
{
    if fs.len() > 0 {
        lemma_canon_factors_ordered(fs.drop_last());
        lemma_canon_ordered(fs.last());
        lemma_factors_ordered(canon(fs.last()));
        lemma_ordered_add(canon_factors(fs.drop_last()), factors_of(canon(fs.last())));
    }
}

/// The canonical form of every expression is ordered: alternation is
/// commutative and idempotent in it, and no alternation of one branch
/// survives.
pub proof fn lemma_canon_ordered(r: Regex)
    ensures
        ordered(canon(r)),
    decreases r, 1int,
{
    match r {
        Regex::Alt(bs) => {
            lemma_canon_branches_ordered(bs);
            lemma_canon_alt_ordered(canon_branches(bs));
        },
        Regex::Concat(fs) => {
            lemma_canon_factors_ordered(fs);
            lemma_unwrap_ordered(canon_factors(fs));
        },
        Regex::Star(b) => {
            lemma_canon_ordered(*b);
        },
        Regex::Char(_) => {},
    }
}

} // verus!
