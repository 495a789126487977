//! Canonical forms: alternation is made associative, commutative and
//! idempotent, and common leading and trailing factors are drawn out of it.

use crate::model::{branches_of, factors_of, key, pack_branches, star_of, unwrap_single, Regex};
use crate::node::{
    alt_arg_wf, alt_args_view, alt_args_wf, append_branches, append_factors, concat_args_view,
    concat_args_wf, copy_factors, push_factor, AltArg, ConcatArg, ParsingResult, StarArg,
};
use crate::canonical::{canonical, lemma_canon_normal};
use crate::order::{compare_texts, lemma_text_lt_total, text_lt, Place};
use crate::ordered::{lemma_canon_ordered, ordered};
use crate::tidy::{lemma_tidy_plain, lemma_tree_tidy, plain};
use vstd::prelude::*;

verus! {

/// The canonical form of `r`. A star stands over the canonical form of its
/// body, a concatenation holds the factors of the canonical forms of its
/// factors, and an alternation is rebuilt from the branches of the canonical
/// forms of its branches by [`canon_alt`].
pub open spec fn canon(r: Regex) -> Regex
    decreases r, 0int,
{
    match r {
        Regex::Alt(bs) => canon_alt(canon_branches(bs)),
        Regex::Concat(fs) => unwrap_single(Regex::Concat(canon_factors(fs))),
        Regex::Star(b) => star_of(canon(*b)),
        Regex::Char(_) => r,
    }
}

/// The branches that the canonical forms of `bs` contribute, in order.
pub open spec fn canon_branches(bs: Seq<Regex>) -> Seq<Regex>
    decreases bs, 0int,
{
    if bs.len() == 0 {
        Seq::empty()
    } else {
        canon_branches(bs.drop_last()) + branches_of(canon(bs.last()))
    }
}

/// The factors that the canonical forms of `fs` contribute, in order.
pub open spec fn canon_factors(fs: Seq<Regex>) -> Seq<Regex>
    decreases fs, 0int,
{
    if fs.len() == 0 {
        Seq::empty()
    } else {
        canon_factors(fs.drop_last()) + factors_of(canon(fs.last()))
    }
}

/// The index of the first expression of `s`, from `j` on, whose key does not
/// come before `k`.
pub open spec fn rank_from(s: Seq<Regex>, k: Seq<char>, j: int) -> int
    decreases s.len() - j,
{
    if 0 <= j < s.len() && text_lt(key(s[j]), k) {
        rank_from(s, k, j + 1)
    } else {
        j
    }
}

/// `s` with `x` put before the first expression whose key does not come
/// before that of `x`; `s` itself if that expression has the key of `x`.
pub open spec fn insert_unique(s: Seq<Regex>, x: Regex) -> Seq<Regex> {
    let j = rank_from(s, key(x), 0);
    if 0 <= j < s.len() && key(s[j]) == key(x) {
        s
    } else {
        s.insert(j, x)
    }
}

/// The expressions of `bs` in the order of their keys, the first of each
/// key only.
pub open spec fn sorted_unique(bs: Seq<Regex>) -> Seq<Regex>
    decreases bs.len(),
{
    if bs.len() == 0 {
        Seq::empty()
    } else {
        insert_unique(sorted_unique(bs.drop_last()), bs.last())
    }
}

/// Every expression of `u` is a concatenation.
pub open spec fn all_concat(u: Seq<Regex>) -> bool {
    forall|i: int| 0 <= i < u.len() ==> #[trigger] u[i] is Concat
}

/// Every branch of `u` has a factor at index `j`, with the key of the first
/// branch's.
pub open spec fn agree_front(u: Seq<Regex>, j: int) -> bool {
    forall|i: int|
        0 <= i < u.len() ==> {
            let fs = factors_of(#[trigger] u[i]);
            &&& j < fs.len()
            &&& key(fs[j]) == key(factors_of(u[0])[j])
        }
}

/// The number of leading factors, from `j` on, on whose keys all branches of
/// `u` agree.
pub open spec fn common_prefix_from(u: Seq<Regex>, j: int) -> int
    decreases factors_of(u[0]).len() - j,
{
    if 0 <= j < factors_of(u[0]).len() && agree_front(u, j) {
        common_prefix_from(u, j + 1)
    } else {
        j
    }
}

/// Every branch of `u` has, behind its first `h` factors, a factor at index
/// `t` from the back, with the key of the first branch's.
pub open spec fn agree_back(u: Seq<Regex>, h: int, t: int) -> bool {
    forall|i: int|
        0 <= i < u.len() ==> {
            let fs = factors_of(#[trigger] u[i]);
            let first = factors_of(u[0]);
            &&& h + t < fs.len()
            &&& key(fs[fs.len() - 1 - t]) == key(first[first.len() - 1 - t])
        }
}

/// The number of trailing factors, from `t` on, on whose keys all branches
/// of `u` agree, the first `h` factors of each branch left aside.
pub open spec fn common_suffix_from(u: Seq<Regex>, h: int, t: int) -> int
    decreases factors_of(u[0]).len() - h - t,
{
    if 0 <= t && 0 <= h && h + t < factors_of(u[0]).len() && agree_back(u, h, t) {
        common_suffix_from(u, h, t + 1)
    } else {
        t
    }
}

/// What is left of the branch `r` without its first `h` and its last `t`
/// factors, as an expression.
pub open spec fn middle_of(r: Regex, h: int, t: int) -> Regex {
    let fs = factors_of(r);
    unwrap_single(Regex::Concat(fs.subrange(h, fs.len() - t)))
}

/// The branches that the middles of `u` contribute, in order.
pub open spec fn middles(u: Seq<Regex>, h: int, t: int) -> Seq<Regex>
    decreases u.len(),
{
    if u.len() == 0 {
        Seq::empty()
    } else {
        middles(u.drop_last(), h, t) + branches_of(middle_of(u.last(), h, t))
    }
}

/// The alternation of `u` with the first `h` and the last `t` factors of its
/// branches drawn out: those factors of the first branch, around the
/// alternation of the middles. A branch of which nothing is left between
/// them contributes the empty concatenation as a branch of its own, so that
/// the alternation of the middles stays nullable where that branch was. The
/// middles are ordered and made unique again; a single middle stands without
/// an alternation, and a single factor without a concatenation.
pub open spec fn factored(u: Seq<Regex>, h: int, t: int) -> Regex {
    let first = factors_of(u[0]);
    let inner = sorted_unique(middles(u, h, t));
    let mid = if inner.len() == 1 {
        factors_of(inner[0])
    } else {
        seq![Regex::Alt(inner)]
    };
    unwrap_single(
        Regex::Concat(
            first.subrange(0, h) + mid + first.subrange(first.len() - t, first.len() as int),
        ),
    )
}

/// The canonical alternation of the branches `xs`, which are canonical and
/// hold no alternation. The branches are ordered by key and made unique; no
/// branch at all is the alternation without branches, and one branch alone
/// is that branch. Where there are two branches or more, every one a
/// concatenation, and all agree on leading or trailing factors, as many of
/// those as possible are drawn out, the leading ones first.
pub open spec fn canon_alt(xs: Seq<Regex>) -> Regex {
    let u = sorted_unique(xs);
    if u.len() <= 1 || !all_concat(u) {
        pack_branches(u)
    } else {
        let h = common_prefix_from(u, 0);
        let t = common_suffix_from(u, h, 0);
        if h == 0 && t == 0 {
            Regex::Alt(u)
        } else {
            factored(u, h, t)
        }
    }
}

/// `keys` holds the key of each branch of `out`.
pub open spec fn keys_of(keys: Seq<Vec<char>>, out: Seq<AltArg>) -> bool {
    &&& keys.len() == out.len()
    &&& forall|j: int| 0 <= j < out.len() ==> (#[trigger] keys[j])@ == key(out[j]@)
}

/// Puts `item` into the ordered list `out` unless a branch of its key is
/// there already.
fn insert_unique_branch(out: &mut Vec<AltArg>, keys: &mut Vec<Vec<char>>, item: AltArg)
    requires
        keys_of(old(keys)@, old(out)@),
        alt_args_wf(old(out)@),
        item.wf(),
    ensures
        keys_of(final(keys)@, final(out)@),
        alt_args_wf(final(out)@),
        alt_args_view(final(out)@) == insert_unique(alt_args_view(old(out)@), item@),
{
    let ghost s = alt_args_view(out@);
    let k = item.key();
    let mut j: usize = 0;
    let mut place = Place::After;
    while j < out.len()
        invariant_except_break
            place == Place::After,
        invariant
            j <= out.len(),
            out == old(out),
            keys == old(keys),
            keys_of(keys@, out@),
            s == alt_args_view(out@),
            k@ == key(item@),
            rank_from(s, k@, 0) == rank_from(s, k@, j as int),
        ensures
            j <= out.len(),
            j == rank_from(s, k@, 0),
            j < out.len() ==> (place is Same <==> key(s[j as int]) == k@),
        decreases out.len() - j,
    {
        place = compare_texts(&k, &keys[j]);
        proof {
            lemma_text_lt_total(k@, keys@[j as int]@);
            assert(keys@[j as int]@ == key(s[j as int]));
        }
        match place {
            Place::After => {},
            _ => {
                break ;
            },
        }
        j += 1;
    }
    let same = j < out.len() && match place {
        Place::Same => true,
        _ => false,
    };
    if !same {
        out.insert(j, item);
        keys.insert(j, k);
        proof {
            assert(alt_args_view(out@) =~= s.insert(j as int, item@));
            assert forall|i: int| 0 <= i < out@.len() implies alt_arg_wf(#[trigger] out@[i]) by {
                if i < j {
                    assert(out@[i] == old(out)@[i]);
                } else if i > j {
                    assert(out@[i] == old(out)@[i - 1]);
                }
            }
            assert forall|i: int| 0 <= i < out@.len() implies (#[trigger] keys@[i])@ == key(
                out@[i]@,
            ) by {
                if i < j {
                    assert(out@[i] == old(out)@[i]);
                    assert(keys@[i] == old(keys)@[i]);
                } else if i > j {
                    assert(out@[i] == old(out)@[i - 1]);
                    assert(keys@[i] == old(keys)@[i - 1]);
                }
            }
        }
    }
}

/// The branches in the order of their keys, the first of each key only.
fn sort_unique(branches: Vec<AltArg>) -> (r: Vec<AltArg>)
    requires
        alt_args_wf(branches@),
    ensures
        alt_args_view(r@) == sorted_unique(alt_args_view(branches@)),
        alt_args_wf(r@),
{
    let ghost bs = alt_args_view(branches@);
    let mut out: Vec<AltArg> = Vec::new();
    let mut keys: Vec<Vec<char>> = Vec::new();
    assert(alt_args_view(out@) =~= Seq::empty());
    for item in it: branches
        invariant
            it.seq() == branches@,
            bs == alt_args_view(branches@),
            alt_args_wf(branches@),
            keys_of(keys@, out@),
            alt_args_wf(out@),
            alt_args_view(out@) == sorted_unique(bs.take(it.index() as int)),
    {
        assert(bs.take(it.index() + 1).drop_last() =~= bs.take(it.index() as int));
        insert_unique_branch(&mut out, &mut keys, item);
    }
    assert(bs.take(branches@.len() as int) =~= bs);
    out
}

/// Whether every branch is a concatenation.
fn all_are_concat(u: &Vec<AltArg>) -> (r: bool)
    ensures
        r == all_concat(alt_args_view(u@)),
{
    let mut i: usize = 0;
    while i < u.len()
        invariant
            i <= u.len(),
            forall|j: int| 0 <= j < i ==> #[trigger] alt_args_view(u@)[j] is Concat,
        decreases u.len() - i,
    {
        match &u[i] {
            AltArg::Concat { .. } => {},
            AltArg::Star(_) => {
                assert(!(alt_args_view(u@)[i as int] is Concat));
                return false;
            },
        }
        i += 1;
    }
    true
}

/// Whether every branch has a factor at index `j` with the key of the first
/// branch's.
fn agrees_front(u: &Vec<AltArg>, j: usize) -> (r: bool)
    requires
        u.len() > 0,
        all_concat(alt_args_view(u@)),
        j < factors_of(alt_args_view(u@)[0]).len(),
    ensures
        r == agree_front(alt_args_view(u@), j as int),
{
    let ghost bs = alt_args_view(u@);
    assert(bs[0] is Concat);
    let wanted = u[0].factors()[j].key();
    let mut i: usize = 0;
    while i < u.len()
        invariant
            i <= u.len(),
            u.len() > 0,
            bs == alt_args_view(u@),
            all_concat(bs),
            j < factors_of(bs[0]).len(),
            wanted@ == key(factors_of(bs[0])[j as int]),
            forall|n: int|
                0 <= n < i ==> j < factors_of(#[trigger] bs[n]).len() && key(
                    factors_of(bs[n])[j as int],
                ) == wanted@,
        decreases u.len() - i,
    {
        assert(bs[i as int] is Concat);
        let fs = u[i].factors();
        if j >= fs.len() {
            assert(!(j < factors_of(bs[i as int]).len()));
            return false;
        }
        let found = fs[j].key();
        match compare_texts(&found, &wanted) {
            Place::Same => {},
            _ => {
                proof {
                    lemma_text_lt_total(found@, wanted@);
                    assert(key(factors_of(bs[i as int])[j as int]) != wanted@);
                }
                return false;
            },
        }
        i += 1;
    }
    true
}

/// The number of leading factors on whose keys all branches agree.
fn common_prefix(u: &Vec<AltArg>) -> (h: usize)
    requires
        u.len() > 0,
        all_concat(alt_args_view(u@)),
    ensures
        h == common_prefix_from(alt_args_view(u@), 0),
        forall|i: int| 0 <= i < u.len() ==> h <= factors_of(#[trigger] alt_args_view(u@)[i]).len(),
{
    let ghost bs = alt_args_view(u@);
    assert(bs[0] is Concat);
    let first_len = u[0].factors().len();
    let mut h: usize = 0;
    while h < first_len
        invariant
            u.len() > 0,
            bs == alt_args_view(u@),
            all_concat(bs),
            first_len == factors_of(bs[0]).len(),
            h <= first_len,
            common_prefix_from(bs, 0) == common_prefix_from(bs, h as int),
            forall|i: int| 0 <= i < u.len() ==> h <= factors_of(#[trigger] bs[i]).len(),
        ensures
            h <= first_len,
            h == common_prefix_from(bs, 0),
            forall|i: int| 0 <= i < u.len() ==> h <= factors_of(#[trigger] bs[i]).len(),
        decreases first_len - h,
    {
        if !agrees_front(u, h) {
            break ;
        }
        h += 1;
    }
    h
}

/// Whether every branch has, behind its first `h` factors, a factor at index
/// `t` from the back with the key of the first branch's.
fn agrees_back(u: &Vec<AltArg>, h: usize, t: usize) -> (r: bool)
    requires
        u.len() > 0,
        all_concat(alt_args_view(u@)),
        h + t < factors_of(alt_args_view(u@)[0]).len(),
    ensures
        r == agree_back(alt_args_view(u@), h as int, t as int),
{
    let ghost bs = alt_args_view(u@);
    assert(bs[0] is Concat);
    let first = u[0].factors();
    let wanted = first[first.len() - 1 - t].key();
    let mut i: usize = 0;
    while i < u.len()
        invariant
            i <= u.len(),
            u.len() > 0,
            h + t < usize::MAX,
            bs == alt_args_view(u@),
            all_concat(bs),
            h + t < factors_of(bs[0]).len(),
            wanted@ == key(factors_of(bs[0])[factors_of(bs[0]).len() - 1 - t]),
            forall|n: int|
                0 <= n < i ==> {
                    let fs = factors_of(#[trigger] bs[n]);
                    &&& h + t < fs.len()
                    &&& key(fs[fs.len() - 1 - t]) == wanted@
                },
        decreases u.len() - i,
    {
        assert(bs[i as int] is Concat);
        let fs = u[i].factors();
        if h + t >= fs.len() {
            assert(!(h + t < factors_of(bs[i as int]).len()));
            return false;
        }
        let found = fs[fs.len() - 1 - t].key();
        match compare_texts(&found, &wanted) {
            Place::Same => {},
            _ => {
                proof {
                    lemma_text_lt_total(found@, wanted@);
                    let gs = factors_of(bs[i as int]);
                    assert(key(gs[gs.len() - 1 - t]) != wanted@);
                }
                return false;
            },
        }
        i += 1;
    }
    true
}

/// The number of trailing factors on whose keys all branches agree, the
/// first `h` factors of each branch left aside.
fn common_suffix(u: &Vec<AltArg>, h: usize) -> (t: usize)
    requires
        u.len() > 0,
        all_concat(alt_args_view(u@)),
        forall|i: int| 0 <= i < u.len() ==> h <= factors_of(#[trigger] alt_args_view(u@)[i]).len(),
    ensures
        t == common_suffix_from(alt_args_view(u@), h as int, 0),
        forall|i: int|
            0 <= i < u.len() ==> h + t <= factors_of(#[trigger] alt_args_view(u@)[i]).len(),
{
    let ghost bs = alt_args_view(u@);
    assert(bs[0] is Concat);
    let first_len = u[0].factors().len();
    let mut t: usize = 0;
    while h + t < first_len
        invariant
            u.len() > 0,
            bs == alt_args_view(u@),
            all_concat(bs),
            first_len == factors_of(bs[0]).len(),
            h + t <= first_len,
            common_suffix_from(bs, h as int, 0) == common_suffix_from(bs, h as int, t as int),
            forall|i: int| 0 <= i < u.len() ==> h + t <= factors_of(#[trigger] bs[i]).len(),
        ensures
            h + t <= first_len,
            t == common_suffix_from(bs, h as int, 0),
            forall|i: int| 0 <= i < u.len() ==> h + t <= factors_of(#[trigger] bs[i]).len(),
        decreases first_len - h - t,
    {
        if !agrees_back(u, h, t) {
            break ;
        }
        t += 1;
    }
    t
}

/// The branches that the middles of `u` contribute.
fn middle_branches(u: &Vec<AltArg>, h: usize, t: usize) -> (r: Vec<AltArg>)
    requires
        all_concat(alt_args_view(u@)),
        forall|i: int|
            0 <= i < u.len() ==> h + t <= factors_of(#[trigger] alt_args_view(u@)[i]).len(),
    ensures
        alt_args_view(r@) == middles(alt_args_view(u@), h as int, t as int),
        alt_args_wf(r@),
{
    let ghost bs = alt_args_view(u@);
    let mut r: Vec<AltArg> = Vec::new();
    let mut i: usize = 0;
    assert(alt_args_view(r@) =~= Seq::empty());
    while i < u.len()
        invariant
            i <= u.len(),
            bs == alt_args_view(u@),
            all_concat(bs),
            forall|n: int| 0 <= n < u.len() ==> h + t <= factors_of(#[trigger] bs[n]).len(),
            alt_args_wf(r@),
            alt_args_view(r@) == middles(bs.take(i as int), h as int, t as int),
        decreases u.len() - i,
    {
        assert(bs[i as int] is Concat);
        let fs = u[i].factors();
        assert(h + t <= factors_of(bs[i as int]).len());
        let middle = copy_factors(fs, h, fs.len() - t);
        append_branches(&mut r, ParsingResult::from_factors(middle).into_branches());
        assert(bs.take(i + 1).drop_last() =~= bs.take(i as int));
        i += 1;
    }
    assert(bs.take(u.len() as int) =~= bs);
    r
}

/// The alternation of `u` with the first `h` and the last `t` factors of its
/// branches drawn out.
fn factor_out(u: &Vec<AltArg>, h: usize, t: usize) -> (r: ParsingResult)
    requires
        u.len() > 0,
        all_concat(alt_args_view(u@)),
        forall|i: int|
            0 <= i < u.len() ==> h + t <= factors_of(#[trigger] alt_args_view(u@)[i]).len(),
    ensures
        r@ == factored(alt_args_view(u@), h as int, t as int),
        r.wf(),
{
    let ghost bs = alt_args_view(u@);
    assert(bs[0] is Concat);
    let first = u[0].factors();
    assert(h + t <= factors_of(bs[0]).len());
    let ghost first_view = factors_of(bs[0]);
    let mut factors = copy_factors(first, 0, h);
    let mut inner = sort_unique(middle_branches(u, h, t));
    let ghost inner_view = alt_args_view(inner@);
    let ghost mid = if inner_view.len() == 1 {
        factors_of(inner_view[0])
    } else {
        seq![Regex::Alt(inner_view)]
    };
    if inner.len() == 1 {
        let only = inner.pop().unwrap();
        assert(only@ == inner_view[0]);
        assert(only.wf());
        append_factors(&mut factors, ParsingResult::from(only).into_factors());
    } else {
        push_factor(&mut factors, ConcatArg::alt(inner));
    }
    assert(concat_args_view(factors@) =~= first_view.subrange(0, h as int) + mid);
    append_factors(&mut factors, copy_factors(first, first.len() - t, first.len()));
    assert(concat_args_view(factors@) =~= first_view.subrange(0, h as int) + mid
        + first_view.subrange(first_view.len() - t, first_view.len() as int));
    ParsingResult::from_factors(factors)
}

/// The canonical alternation of canonical branches.
fn canon_alt_of(branches: Vec<AltArg>) -> (r: ParsingResult)
    requires
        alt_args_wf(branches@),
    ensures
        r@ == canon_alt(alt_args_view(branches@)),
        r.wf(),
{
    let u = sort_unique(branches);
    if u.len() <= 1 || !all_are_concat(&u) {
        return ParsingResult::from_branches(u);
    }
    let h = common_prefix(&u);
    let t = common_suffix(&u, h);
    if h == 0 && t == 0 {
        ParsingResult::alt(u)
    } else {
        factor_out(&u, h, t)
    }
}

fn canon_of_alt_arg(a: &AltArg) -> (r: ParsingResult)
    ensures
        r@ == canon(a@),
        r.wf(),
    decreases a, 0int,
{
    match a {
        AltArg::Concat { args, .. } => canon_of_concat(args),
        AltArg::Star(b) => canon_of_star(b),
    }
}

fn canon_of_concat_arg(a: &ConcatArg) -> (r: Vec<ConcatArg>)
    ensures
        concat_args_view(r@) == factors_of(canon(a@)),
        concat_args_wf(r@),
    decreases a, 0int,
{
    match a {
        ConcatArg::Alt { args, .. } => canon_of_alt(args).into_factors(),
        ConcatArg::Star(b) => canon_of_star(b).into_factors(),
        ConcatArg::Char(c) => {
            let mut r: Vec<ConcatArg> = Vec::new();
            push_factor(&mut r, ConcatArg::literal(*c));
            assert(concat_args_view(r@) =~= seq![Regex::Char(*c)]);
            r
        },
    }
}

fn canon_of_star(b: &StarArg) -> (r: ParsingResult)
    ensures
        r@ == canon(Regex::Star(Box::new(b@))),
        r.wf(),
    decreases b, 1int,
{
    let body = match b {
        StarArg::Alt { args, .. } => canon_of_alt(args),
        StarArg::Concat { args, .. } => canon_of_concat(args),
    };
    ParsingResult::Star(Box::new(body.into_star_body()))
}

fn canon_of_alt(args: &Vec<AltArg>) -> (r: ParsingResult)
    ensures
        r@ == canon(Regex::Alt(alt_args_view(args@))),
        r.wf(),
    decreases args, 1int,
{
    let ghost bs = alt_args_view(args@);
    let mut branches: Vec<AltArg> = Vec::new();
    let mut i: usize = 0;
    assert(alt_args_view(branches@) =~= Seq::empty());
    while i < args.len()
        invariant
            i <= args.len(),
            bs == alt_args_view(args@),
            alt_args_wf(branches@),
            alt_args_view(branches@) == canon_branches(bs.take(i as int)),
        decreases args.len() - i,
    {
        let item = canon_of_alt_arg(&args[i]);
        append_branches(&mut branches, item.into_branches());
        assert(bs.take(i + 1).drop_last() =~= bs.take(i as int));
        i += 1;
    }
    assert(bs.take(args.len() as int) =~= bs);
    canon_alt_of(branches)
}

fn canon_of_concat(args: &Vec<ConcatArg>) -> (r: ParsingResult)
    ensures
        r@ == canon(Regex::Concat(concat_args_view(args@))),
        r.wf(),
    decreases args, 1int,
{
    let ghost fs = concat_args_view(args@);
    let mut factors: Vec<ConcatArg> = Vec::new();
    let mut i: usize = 0;
    assert(concat_args_view(factors@) =~= Seq::empty());
    while i < args.len()
        invariant
            i <= args.len(),
            fs == concat_args_view(args@),
            concat_args_wf(factors@),
            concat_args_view(factors@) == canon_factors(fs.take(i as int)),
        decreases args.len() - i,
    {
        append_factors(&mut factors, canon_of_concat_arg(&args[i]));
        assert(fs.take(i + 1).drop_last() =~= fs.take(i as int));
        i += 1;
    }
    assert(fs.take(args.len() as int) =~= fs);
    ParsingResult::from_factors(factors)
}

/// The canonical form of `arg`. The flags of `arg` are not read; those of
/// the result are computed. In the result every alternation is ordered by
/// key, without two branches of one key; the result of a plain tree is in
/// canonical form, so that canonicalizing it again changes nothing, and
/// accepts the words that the tree accepts.
pub fn simplify(arg: ParsingResult) -> (r: ParsingResult)
    ensures
        r@ == canon(arg@),
        r.wf(),
        ordered(r@),
        plain(arg@) ==> plain(r@) && canonical(r@),
{
    proof {
        lemma_canon_ordered(arg@);
        if plain(arg@) {
            lemma_tree_tidy(arg);
            lemma_canon_normal(arg@);
            lemma_tidy_plain(canon(arg@));
        }
    }
    match &arg {
        ParsingResult::Alt { args, .. } => canon_of_alt(args),
        ParsingResult::Concat { args, .. } => canon_of_concat(args),
        ParsingResult::Star(b) => canon_of_star(b),
    }
}

} // verus!
