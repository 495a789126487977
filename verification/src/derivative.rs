//! The symbolic derivative: what an expression still has to read after one
//! symbol.

use crate::model::{branches_of, epsilon, factors_of, nullable, Regex};
use crate::node::{
    alt_args_view, alt_args_wf, append_branches, append_factors, concat_args_view,
    concat_args_wf, copy_factors, push_factor, rebuild_star_arg, AltArg, ConcatArg,
    ParsingResult, StarArg,
};
use crate::tidy::{
    lemma_branches_tidy, lemma_factors_tidy, lemma_tidy_branches_add, lemma_tidy_factors_add,
    lemma_tidy_plain, lemma_tree_tidy, plain, solid, tidy, tidy_branches, tidy_factors,
};
use vstd::prelude::*;

verus! {

/// The derivative of `r` by `c`; `None` is the empty language. The result is
/// not canonical.
///
/// - A literal gives the empty string if it is `c`, and nothing otherwise.
/// - An alternation gives the union of what its branches give.
/// - A concatenation gives the union of what its factors give, each followed
///   by the factors behind it, up to and including the first factor that is
///   not nullable.
/// - A star gives what its body gives, followed by the star itself.
///
/// A union of no expression is nothing, a union of one is that one.
pub open spec fn derivative(r: Regex, c: char) -> Option<Regex>
    decreases r, 0int,
{
    match r {
        Regex::Alt(bs) => union_of(derive_branches(bs, c)),
        Regex::Concat(fs) => union_of(derive_factors(fs, 0, c)),
        Regex::Star(b) => match derivative(*b, c) {
            Some(d) => Some(before_star(d, r)),
            None => None,
        },
        Regex::Char(x) => if x == c {
            Some(epsilon())
        } else {
            None
        },
    }
}

/// The branches that the derivatives of `bs` contribute, in order.
pub open spec fn derive_branches(bs: Seq<Regex>, c: char) -> Seq<Regex>
    decreases bs, 0int,
{
    if bs.len() == 0 {
        Seq::empty()
    } else {
        derive_branches(bs.drop_last(), c) + match derivative(bs.last(), c) {
            Some(d) => branches_of(d),
            None => Seq::empty(),
        }
    }
}

/// The branches that the factors of `fs` from index `k` on contribute, given
/// that every factor before `k` is nullable.
pub open spec fn derive_factors(fs: Seq<Regex>, k: int, c: char) -> Seq<Regex>
    decreases fs, fs.len() - k,
{
    if k < 0 || k >= fs.len() {
        Seq::empty()
    } else {
        before_factors(derivative(fs[k], c), fs.subrange(k + 1, fs.len() as int)) + if nullable(
            fs[k],
        ) {
            derive_factors(fs, k + 1, c)
        } else {
            Seq::empty()
        }
    }
}

/// The branches that a factor's derivative `d` contributes before the
/// factors `rest`: alone it contributes its own branches, else the one
/// concatenation of its factors and `rest`.
pub open spec fn before_factors(d: Option<Regex>, rest: Seq<Regex>) -> Seq<Regex> {
    match d {
        Some(d) => if rest.len() == 0 {
            branches_of(d)
        } else {
            seq![Regex::Concat(factors_of(d) + rest)]
        },
        None => Seq::empty(),
    }
}

/// The derivative `d` of a star's body, followed by the star: the empty
/// string leaves the star alone.
pub open spec fn before_star(d: Regex, star: Regex) -> Regex {
    if d == epsilon() {
        star
    } else {
        Regex::Concat(factors_of(d).push(star))
    }
}

/// The union of `bs`: nothing for no branch, the branch itself for one.
pub open spec fn union_of(bs: Seq<Regex>) -> Option<Regex> {
    if bs.len() == 0 {
        None
    } else if bs.len() == 1 {
        Some(bs[0])
    } else {
        Some(Regex::Alt(bs))
    }
}

/// `r` is a well-formed tree of `d`, or both are nothing.
pub open spec fn is_tree_of(r: Option<ParsingResult>, d: Option<Regex>) -> bool {
    match d {
        Some(d) => {
            &&& r matches Some(p)
            &&& p@ == d
            &&& p.wf()
        },
        None => r is None,
    }
}

/// The derivative of a tidy expression is tidy and no literal alone.
pub proof fn lemma_derive_tidy(r: Regex, c: char)
    requires
        tidy(r),
    ensures
        derivative(r, c) matches Some(d) ==> tidy(d) && solid(d) && !(d is Char),
    decreases r, 0int,
{
    match r {
        Regex::Alt(bs) => {
            assert(tidy_branches(bs));
            lemma_derive_branches_tidy(bs, c);
            lemma_union_tidy(derive_branches(bs, c));
        },
        Regex::Concat(fs) => {
            assert(tidy_factors(fs));
            lemma_derive_factors_tidy(fs, 0, c);
            lemma_union_tidy(derive_factors(fs, 0, c));
        },
        Regex::Star(b) => {
            lemma_derive_tidy(*b, c);
            match derivative(*b, c) {
                Some(d) => {
                    if d != epsilon() {
                        let one = seq![r];
                        assert(one[0] == r);
                        assert(tidy_factors(one));
                        lemma_factors_tidy(d);
                        lemma_tidy_factors_add(factors_of(d), one);
                        assert(factors_of(d).push(r) =~= factors_of(d) + one);
                    }
                },
                None => {},
            }
        },
        Regex::Char(x) => {
            assert(tidy_factors(Seq::<Regex>::empty()));
        },
    }
}

/// The union of tidy branches is tidy.
proof fn lemma_union_tidy(bs: Seq<Regex>)
    requires
        tidy_branches(bs),
    ensures
        union_of(bs) matches Some(d) ==> tidy(d) && solid(d) && !(d is Char),
{
    if bs.len() == 1 {
        assert(tidy(bs[0]));
    }
}

/// The branches that the derivatives of tidy branches contribute are tidy
/// branches.
proof fn lemma_derive_branches_tidy(bs: Seq<Regex>, c: char)
    requires
        tidy_branches(bs),
    ensures
        tidy_branches(derive_branches(bs, c)),
    decreases bs, 0int,
{
    if bs.len() > 0 {
        let front = bs.drop_last();
        assert forall|i: int| 0 <= i < front.len() implies {
            let b = #[trigger] front[i];
            (b is Concat || b is Star) && tidy(b)
        } by {
            assert(front[i] == bs[i]);
        }
        assert(tidy(bs[bs.len() - 1]));
        lemma_derive_branches_tidy(front, c);
        lemma_derive_tidy(bs.last(), c);
        match derivative(bs.last(), c) {
            Some(d) => {
                lemma_branches_tidy(d);
                lemma_tidy_branches_add(derive_branches(front, c), branches_of(d));
            },
            None => {
                assert(derive_branches(front, c) + Seq::<Regex>::empty() =~= derive_branches(
                    front,
                    c,
                ));
            },
        }
    }
}

/// The branches that tidy factors contribute from index `k` on are tidy
/// branches.
proof fn lemma_derive_factors_tidy(fs: Seq<Regex>, k: int, c: char)
    requires
        tidy_factors(fs),
    ensures
        tidy_branches(derive_factors(fs, k, c)),
    decreases fs, fs.len() - k,
{
    if 0 <= k < fs.len() {
        let rest = fs.subrange(k + 1, fs.len() as int);
        assert(tidy(fs[k]));
        lemma_derive_tidy(fs[k], c);
        let first = before_factors(derivative(fs[k], c), rest);
        assert(tidy_branches(first)) by {
            match derivative(fs[k], c) {
                Some(d) => {
                    if rest.len() == 0 {
                        lemma_branches_tidy(d);
                    } else {
                        assert(tidy_factors(rest)) by {
                            assert forall|i: int| 0 <= i < rest.len() implies {
                                let f = #[trigger] rest[i];
                                !(f is Concat) && solid(f) && tidy(f)
                            } by {
                                assert(rest[i] == fs[k + 1 + i]);
                            }
                        }
                        lemma_factors_tidy(d);
                        lemma_tidy_factors_add(factors_of(d), rest);
                        let whole = Regex::Concat(factors_of(d) + rest);
                        assert(tidy(whole));
                        assert(first[0] == whole);
                    }
                },
                None => {},
            }
        }
        if nullable(fs[k]) {
            lemma_derive_factors_tidy(fs, k + 1, c);
            lemma_tidy_branches_add(first, derive_factors(fs, k + 1, c));
        } else {
            assert(first + Seq::<Regex>::empty() =~= first);
        }
    }
}

fn union_of_branches(branches: Vec<AltArg>) -> (r: Option<ParsingResult>)
    requires
        alt_args_wf(branches@),
    ensures
        is_tree_of(r, union_of(alt_args_view(branches@))),
{
    if branches.len() == 0 {
        None
    } else {
        Some(ParsingResult::from_branches(branches))
    }
}

fn derive_alt_arg(a: &AltArg, symbol: char) -> (r: Option<ParsingResult>)
    requires
        a.wf(),
    ensures
        is_tree_of(r, derivative(a@, symbol)),
    decreases a, 0int,
{
    match a {
        AltArg::Concat { args, .. } => derive_concat(args, symbol),
        AltArg::Star(b) => derive_star(b, symbol),
    }
}

fn derive_concat_arg(a: &ConcatArg, symbol: char) -> (r: Option<ParsingResult>)
    requires
        a.wf(),
    ensures
        is_tree_of(r, derivative(a@, symbol)),
    decreases a, 0int,
{
    match a {
        ConcatArg::Alt { args, .. } => derive_alt(args, symbol),
        ConcatArg::Star(b) => derive_star(b, symbol),
        ConcatArg::Char(x) => if *x == symbol {
            let empty: Vec<ConcatArg> = Vec::new();
            assert(concat_args_view(empty@) =~= Seq::empty());
            Some(ParsingResult::concat(empty))
        } else {
            None
        },
    }
}

fn derive_star(b: &StarArg, symbol: char) -> (r: Option<ParsingResult>)
    requires
        b.wf(),
    ensures
        is_tree_of(r, derivative(Regex::Star(Box::new(b@)), symbol)),
    decreases b, 1int,
{
    let inner = match b {
        StarArg::Alt { args, .. } => derive_alt(args, symbol),
        StarArg::Concat { args, .. } => derive_concat(args, symbol),
    };
    match inner {
        None => None,
        Some(d) => {
            let star = rebuild_star_arg(b);
            let mut factors = d.into_factors();
            if factors.len() == 0 {
                assert(d@ == epsilon()) by {
                    assert(factors_of(d@) =~= Seq::empty());
                }
                Some(ParsingResult::Star(Box::new(star)))
            } else {
                assert(d@ != epsilon()) by {
                    assert(factors_of(d@).len() > 0);
                }
                push_factor(&mut factors, ConcatArg::Star(Box::new(star)));
                Some(ParsingResult::concat(factors))
            }
        },
    }
}

fn derive_alt(args: &Vec<AltArg>, symbol: char) -> (r: Option<ParsingResult>)
    requires
        alt_args_wf(args@),
    ensures
        is_tree_of(r, derivative(Regex::Alt(alt_args_view(args@)), symbol)),
    decreases args, 1int,
{
    let ghost bs = alt_args_view(args@);
    let mut found: Vec<AltArg> = Vec::new();
    let mut i: usize = 0;
    assert(alt_args_view(found@) =~= Seq::empty());
    while i < args.len()
        invariant
            i <= args.len(),
            bs == alt_args_view(args@),
            alt_args_wf(args@),
            alt_args_wf(found@),
            alt_args_view(found@) == derive_branches(bs.take(i as int), symbol),
        decreases args.len() - i,
    {
        let ghost before = alt_args_view(found@);
        match derive_alt_arg(&args[i], symbol) {
            Some(d) => append_branches(&mut found, d.into_branches()),
            None => {
                assert(before + Seq::<Regex>::empty() =~= before);
            },
        }
        assert(bs.take(i + 1).drop_last() =~= bs.take(i as int));
        i += 1;
    }
    assert(bs.take(args.len() as int) =~= bs);
    union_of_branches(found)
}

fn derive_concat(args: &Vec<ConcatArg>, symbol: char) -> (r: Option<ParsingResult>)
    requires
        concat_args_wf(args@),
    ensures
        is_tree_of(r, derivative(Regex::Concat(concat_args_view(args@)), symbol)),
    decreases args, 1int,
{
    let ghost fs = concat_args_view(args@);
    let mut found: Vec<AltArg> = Vec::new();
    let mut k: usize = 0;
    assert(alt_args_view(found@) =~= Seq::empty());
    while k < args.len()
        invariant_except_break
            derive_factors(fs, 0, symbol) == alt_args_view(found@) + derive_factors(
                fs,
                k as int,
                symbol,
            ),
        invariant
            k <= args.len(),
            fs == concat_args_view(args@),
            concat_args_wf(args@),
            alt_args_wf(found@),
        ensures
            alt_args_wf(found@),
            derive_factors(fs, 0, symbol) == alt_args_view(found@),
        decreases args.len() - k,
    {
        let ghost before = alt_args_view(found@);
        let ghost rest = fs.subrange(k + 1, fs.len() as int);
        match derive_concat_arg(&args[k], symbol) {
            Some(d) => {
                let behind = copy_factors(args, k + 1, args.len());
                if behind.len() == 0 {
                    append_branches(&mut found, d.into_branches());
                } else {
                    let mut factors = d.into_factors();
                    append_factors(&mut factors, behind);
                    let whole = AltArg::concat(factors);
                    let mut one: Vec<AltArg> = Vec::new();
                    one.push(whole);
                    assert(alt_args_view(one@) =~= seq![whole@]);
                    append_branches(&mut found, one);
                }
            },
            None => {
                assert(before + Seq::<Regex>::empty() =~= before);
            },
        }
        assert(alt_args_view(found@) == before + before_factors(derivative(fs[k as int], symbol), rest));
        if !args[k].accepts_empty() {
            assert(derive_factors(fs, k as int, symbol) =~= before_factors(
                derivative(fs[k as int], symbol),
                rest,
            ));
            break ;
        }
        assert(derive_factors(fs, 0, symbol) =~= alt_args_view(found@) + derive_factors(
            fs,
            k + 1,
            symbol,
        ));
        k += 1;
    }
    union_of_branches(found)
}

/// The derivative of `arg` by `symbol`; `None` is the empty language. The
/// flags of `arg` are not trusted; those of the result are computed. The
/// result must be brought into star normal form and canonicalized before it
/// is compared with another expression.
pub fn take_derivative(arg: ParsingResult, symbol: char) -> (r: Option<ParsingResult>)
    ensures
        is_tree_of(r, derivative(arg@, symbol)),
        plain(arg@) ==> (r matches Some(tree) ==> plain(tree@)),
{
    proof {
        if plain(arg@) {
            lemma_tree_tidy(arg);
            lemma_derive_tidy(arg@, symbol);
            match derivative(arg@, symbol) {
                Some(d) => {
                    lemma_tidy_plain(d);
                },
                None => {},
            }
        }
    }
    let arg = arg.rebuild();
    match &arg {
        ParsingResult::Alt { args, .. } => derive_alt(args, symbol),
        ParsingResult::Concat { args, .. } => derive_concat(args, symbol),
        ParsingResult::Star(b) => derive_star(b, symbol),
    }
}

} // verus!
