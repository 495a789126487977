//! The trees whose text reads back as the same tree.

use crate::model::{branches_of, factors_of, pack_branches, star_of, unwrap_single, Regex};
use crate::node::{alt_args_view, concat_args_view, AltArg, ConcatArg, ParsingResult, StarArg};
use vstd::prelude::*;

verus! {

/// The characters that the grammar reads as operators, not as literals.
pub open spec fn is_operator(c: char) -> bool {
    c == '(' || c == ')' || c == '|' || c == '*'
}

/// `r` is not the alternation without branches.
pub open spec fn solid(r: Regex) -> bool {
    !(r matches Regex::Alt(bs) && bs.len() == 0)
}

/// No literal of `r` is an operator character, no factor of a concatenation
/// is the alternation without branches, and the nesting is that of a tree:
/// the branches of an alternation are concatenations and stars, no factor
/// is a concatenation, and the body of a star is an alternation or a
/// concatenation.
pub open spec fn tidy(r: Regex) -> bool
    decreases r,
{
    match r {
        Regex::Alt(bs) => tidy_branches(bs),
        Regex::Concat(fs) => tidy_factors(fs),
        Regex::Star(b) => (*b is Alt || *b is Concat) && tidy(*b),
        Regex::Char(c) => !is_operator(c),
    }
}

/// Every expression of `bs` is a tidy branch.
pub open spec fn tidy_branches(bs: Seq<Regex>) -> bool
    decreases bs,
{
    forall|i: int|
        0 <= i < bs.len() ==> {
            let b = #[trigger] bs[i];
            (b is Concat || b is Star) && tidy(b)
        }
}

/// Every expression of `fs` is a tidy factor.
pub open spec fn tidy_factors(fs: Seq<Regex>) -> bool
    decreases fs,
{
    forall|i: int|
        0 <= i < fs.len() ==> {
            let f = #[trigger] fs[i];
            !(f is Concat) && solid(f) && tidy(f)
        }
}

/// No literal of `r` is an operator character, and no factor of a
/// concatenation is the alternation without branches.
pub open spec fn plain(r: Regex) -> bool
    decreases r,
{
    match r {
        Regex::Alt(bs) => plain_each(bs),
        Regex::Concat(fs) => plain_each(fs) && solid_each(fs),
        Regex::Star(b) => plain(*b),
        Regex::Char(c) => !is_operator(c),
    }
}

/// Every expression of `rs` is plain.
pub open spec fn plain_each(rs: Seq<Regex>) -> bool
    decreases rs,
{
    forall|i: int| 0 <= i < rs.len() ==> plain(#[trigger] rs[i])
}

/// No expression of `rs` is the alternation without branches.
pub open spec fn solid_each(rs: Seq<Regex>) -> bool {
    forall|i: int| 0 <= i < rs.len() ==> solid(#[trigger] rs[i])
}

/// The model of a plain branch is tidy: a tree has the nesting that
/// tidiness asks for.
pub proof fn lemma_alt_arg_tidy(a: AltArg)
    requires
        plain(a@),
    ensures
        tidy(a@),
        a@ is Concat || a@ is Star,
    decreases a,
{
    match a {
        AltArg::Concat { args, .. } => {
            lemma_concat_args_tidy(args@);
        },
        AltArg::Star(b) => {
            lemma_star_arg_tidy(*b);
        },
    }
}

/// The model of a plain factor is tidy.
pub proof fn lemma_concat_arg_tidy(a: ConcatArg)
    requires
        plain(a@),
    ensures
        tidy(a@),
        !(a@ is Concat),
    decreases a,
{
    match a {
        ConcatArg::Alt { args, .. } => {
            lemma_alt_args_tidy(args@);
        },
        ConcatArg::Star(b) => {
            lemma_star_arg_tidy(*b);
        },
        ConcatArg::Char(_) => {},
    }
}

/// The model of a plain body is tidy.
pub proof fn lemma_star_arg_tidy(a: StarArg)
    requires
        plain(a@),
    ensures
        tidy(a@),
        a@ is Alt || a@ is Concat,
    decreases a,
{
    match a {
        StarArg::Alt { args, .. } => {
            lemma_alt_args_tidy(args@);
        },
        StarArg::Concat { args, .. } => {
            lemma_concat_args_tidy(args@);
        },
    }
}

/// The models of plain branches are tidy branches.
pub proof fn lemma_alt_args_tidy(args: Seq<AltArg>)
    requires
        plain_each(alt_args_view(args)),
    ensures
        tidy_branches(alt_args_view(args)),
    decreases args,
{
    let bs = alt_args_view(args);
    assert forall|i: int| 0 <= i < bs.len() implies {
        let b = #[trigger] bs[i];
        (b is Concat || b is Star) && tidy(b)
    } by {
        assert(plain(bs[i]));
        lemma_alt_arg_tidy(args[i]);
    }
}

/// The models of plain factors, none of them the alternation without
/// branches, are tidy factors.
pub proof fn lemma_concat_args_tidy(args: Seq<ConcatArg>)
    requires
        plain_each(concat_args_view(args)),
        solid_each(concat_args_view(args)),
    ensures
        tidy_factors(concat_args_view(args)),
    decreases args,
{
    let fs = concat_args_view(args);
    assert forall|i: int| 0 <= i < fs.len() implies {
        let f = #[trigger] fs[i];
        !(f is Concat) && solid(f) && tidy(f)
    } by {
        assert(plain(fs[i]));
        assert(solid(fs[i]));
        lemma_concat_arg_tidy(args[i]);
    }
}

/// The model of a plain tree is tidy.
pub proof fn lemma_tree_tidy(x: ParsingResult)
    requires
        plain(x@),
    ensures
        tidy(x@),
{
    match x {
        ParsingResult::Alt { args, .. } => {
            lemma_alt_args_tidy(args@);
        },
        ParsingResult::Concat { args, .. } => {
            lemma_concat_args_tidy(args@);
        },
        ParsingResult::Star(b) => {
            lemma_star_arg_tidy(*b);
        },
    }
}

/// A tidy expression is plain.
pub proof fn lemma_tidy_plain(r: Regex)
    requires
        tidy(r),
    ensures
        plain(r),
    decreases r,
{
    match r {
        Regex::Alt(bs) => {
            assert(tidy_branches(bs));
            assert forall|i: int| 0 <= i < bs.len() implies plain(#[trigger] bs[i]) by {
                lemma_tidy_plain(bs[i]);
            }
            assert(plain_each(bs));
        },
        Regex::Concat(fs) => {
            assert(tidy_factors(fs));
            assert forall|i: int| 0 <= i < fs.len() implies plain(#[trigger] fs[i]) by {
                lemma_tidy_plain(fs[i]);
            }
            assert forall|i: int| 0 <= i < fs.len() implies solid(#[trigger] fs[i]) by {}
            assert(plain_each(fs));
        },
        Regex::Star(b) => {
            lemma_tidy_plain(*b);
        },
        Regex::Char(_) => {},
    }
}

/// Tidy factors followed by tidy factors are tidy factors.
pub proof fn lemma_tidy_factors_add(a: Seq<Regex>, b: Seq<Regex>)
    requires
        tidy_factors(a),
        tidy_factors(b),
    ensures
        tidy_factors(a + b),
{
    let c = a + b;
    assert forall|i: int| 0 <= i < c.len() implies {
        let f = #[trigger] c[i];
        !(f is Concat) && solid(f) && tidy(f)
    } by {
        if i < a.len() {
            assert(c[i] == a[i]);
        } else {
            assert(c[i] == b[i - a.len()]);
        }
    }
}

/// Tidy branches followed by tidy branches are tidy branches.
pub proof fn lemma_tidy_branches_add(a: Seq<Regex>, b: Seq<Regex>)
    requires
        tidy_branches(a),
        tidy_branches(b),
    ensures
        tidy_branches(a + b),
{
    let c = a + b;
    assert forall|i: int| 0 <= i < c.len() implies {
        let f = #[trigger] c[i];
        (f is Concat || f is Star) && tidy(f)
    } by {
        if i < a.len() {
            assert(c[i] == a[i]);
        } else {
            assert(c[i] == b[i - a.len()]);
        }
    }
}

/// The branches that a tidy expression other than a literal contributes are
/// tidy branches, at least one unless the expression is the alternation
/// without branches.
pub proof fn lemma_branches_tidy(r: Regex)
    requires
        tidy(r),
        !(r is Char),
    ensures
        tidy_branches(branches_of(r)),
        solid(r) ==> branches_of(r).len() > 0,
{
    match r {
        Regex::Alt(bs) => {
            assert(tidy_branches(bs));
        },
        _ => {
            assert(branches_of(r)[0] == r);
        },
    }
}

/// The factors that a tidy expression contributes are tidy factors, unless
/// the expression is the alternation without branches.
pub proof fn lemma_factors_tidy(r: Regex)
    requires
        tidy(r),
        solid(r),
    ensures
        tidy_factors(factors_of(r)),
{
    match r {
        Regex::Concat(fs) => {
            assert(tidy_factors(fs));
        },
        _ => {
            assert(factors_of(r)[0] == r);
        },
    }
}

/// The concatenation of tidy factors, one factor that is no literal
/// standing for itself, is tidy.
pub proof fn lemma_unwrap_tidy(fs: Seq<Regex>)
    requires
        tidy_factors(fs),
    ensures
        tidy(unwrap_single(Regex::Concat(fs))),
        solid(unwrap_single(Regex::Concat(fs))),
        !(unwrap_single(Regex::Concat(fs)) is Char),
{
    if fs.len() == 1 && !(fs[0] is Char) {
        assert(unwrap_single(Regex::Concat(fs)) == fs[0]);
    }
}

/// The star over a tidy expression other than a literal is tidy.
pub proof fn lemma_star_tidy(r: Regex)
    requires
        tidy(r),
        !(r is Char),
    ensures
        tidy(star_of(r)),
        star_of(r) is Star,
{
}

/// The alternation of tidy branches, a single branch standing for itself,
/// is tidy.
pub proof fn lemma_pack_tidy(bs: Seq<Regex>)
    requires
        tidy_branches(bs),
    ensures
        tidy(pack_branches(bs)),
        !(pack_branches(bs) is Char),
        bs.len() > 0 ==> solid(pack_branches(bs)),
{
    if bs.len() == 1 {
        assert(pack_branches(bs) == bs[0]);
    }
}

/// Whether the branch is plain.
pub fn alt_arg_is_plain(a: &AltArg) -> (r: bool)
    ensures
        r == plain(a@),
    decreases a,
{
    match a {
        AltArg::Concat { args, .. } => concat_args_are_plain(args),
        AltArg::Star(b) => star_arg_is_plain(b),
    }
}

/// Whether the factor is plain.
pub fn concat_arg_is_plain(a: &ConcatArg) -> (r: bool)
    ensures
        r == plain(a@),
    decreases a,
{
    match a {
        ConcatArg::Alt { args, .. } => alt_args_are_plain(args),
        ConcatArg::Star(b) => star_arg_is_plain(b),
        ConcatArg::Char(c) => !(*c == '(' || *c == ')' || *c == '|' || *c == '*'),
    }
}

/// Whether the body is plain.
pub fn star_arg_is_plain(a: &StarArg) -> (r: bool)
    ensures
        r == plain(a@),
    decreases a,
{
    match a {
        StarArg::Alt { args, .. } => alt_args_are_plain(args),
        StarArg::Concat { args, .. } => concat_args_are_plain(args),
    }
}

/// Whether every branch is plain.
pub fn alt_args_are_plain(args: &Vec<AltArg>) -> (r: bool)
    ensures
        r == plain_each(alt_args_view(args@)),
    decreases args,
{
    let mut i: usize = 0;
    while i < args.len()
        invariant
            i <= args.len(),
            forall|j: int| 0 <= j < i ==> plain(#[trigger] alt_args_view(args@)[j]),
        decreases args.len() - i,
    {
        if !alt_arg_is_plain(&args[i]) {
            assert(!plain(alt_args_view(args@)[i as int]));
            return false;
        }
        i += 1;
    }
    true
}

/// Whether every factor is plain and none is the alternation without
/// branches.
pub fn concat_args_are_plain(args: &Vec<ConcatArg>) -> (r: bool)
    ensures
        r == (plain_each(concat_args_view(args@)) && solid_each(concat_args_view(args@))),
    decreases args,
{
    let mut i: usize = 0;
    while i < args.len()
        invariant
            i <= args.len(),
            forall|j: int| 0 <= j < i ==> plain(#[trigger] concat_args_view(args@)[j]),
            forall|j: int| 0 <= j < i ==> solid(#[trigger] concat_args_view(args@)[j]),
        decreases args.len() - i,
    {
        if !concat_arg_is_plain(&args[i]) {
            assert(!plain(concat_args_view(args@)[i as int]));
            return false;
        }
        let empty = match &args[i] {
            ConcatArg::Alt { args: branches, .. } => branches.len() == 0,
            _ => false,
        };
        if empty {
            assert(!solid(concat_args_view(args@)[i as int]));
            return false;
        }
        assert(solid(concat_args_view(args@)[i as int]));
        i += 1;
    }
    true
}

impl ParsingResult {
    /// Whether the tree is plain: no literal is an operator character, and
    /// no factor of a concatenation is the alternation without branches.
    pub fn is_plain(&self) -> (r: bool)
        ensures
            r == plain(self@),
    {
        match self {
            ParsingResult::Alt { args, .. } => alt_args_are_plain(args),
            ParsingResult::Concat { args, .. } => concat_args_are_plain(args),
            ParsingResult::Star(b) => star_arg_is_plain(b),
        }
    }
}

} // verus!
