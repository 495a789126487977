//! The concrete trees. Three types forbid redundant nesting: an alternation
//! holds no alternation, a concatenation no concatenation, a star no star.

use crate::model::{
    as_whole, branches_of, factors_of, nullable, pack_branches, star_of, unwrap_single, Regex,
};
use vstd::prelude::*;

verus! {

/// A branch of an alternation.
#[allow(inconsistent_fields)]
#[derive(Debug, PartialEq, Eq)]
pub enum AltArg {
    Concat { args: Vec<ConcatArg>, accepts_empty: bool },
    Star(Box<StarArg>),
}

/// A factor of a concatenation.
#[allow(inconsistent_fields)]
#[derive(Debug, PartialEq, Eq)]
pub enum ConcatArg {
    Alt { args: Vec<AltArg>, accepts_empty: bool },
    Star(Box<StarArg>),
    Char(char),
}

/// The body of a star.
#[allow(inconsistent_fields)]
#[derive(Debug, PartialEq, Eq)]
pub enum StarArg {
    Alt { args: Vec<AltArg>, accepts_empty: bool },
    Concat { args: Vec<ConcatArg>, accepts_empty: bool },
}

/// A whole expression, as the passes take and return it.
#[allow(inconsistent_fields)]
#[derive(Debug, PartialEq, Eq)]
pub enum ParsingResult {
    Alt { args: Vec<AltArg>, accepts_empty: bool },
    Concat { args: Vec<ConcatArg>, accepts_empty: bool },
    Star(Box<StarArg>),
}

/// The model of a branch.
pub open spec fn alt_arg_view(a: AltArg) -> Regex
    decreases a,
{
    match a {
        AltArg::Concat { args, .. } => Regex::Concat(concat_args_view(args@)),
        AltArg::Star(b) => Regex::Star(Box::new(star_arg_view(*b))),
    }
}

/// The model of a factor.
pub open spec fn concat_arg_view(a: ConcatArg) -> Regex
    decreases a,
{
    match a {
        ConcatArg::Alt { args, .. } => Regex::Alt(alt_args_view(args@)),
        ConcatArg::Star(b) => Regex::Star(Box::new(star_arg_view(*b))),
        ConcatArg::Char(c) => Regex::Char(c),
    }
}

/// The model of a star's body.
pub open spec fn star_arg_view(a: StarArg) -> Regex
    decreases a,
{
    match a {
        StarArg::Alt { args, .. } => Regex::Alt(alt_args_view(args@)),
        StarArg::Concat { args, .. } => Regex::Concat(concat_args_view(args@)),
    }
}

/// The models of a list of branches.
pub open spec fn alt_args_view(args: Seq<AltArg>) -> Seq<Regex>
    decreases args,
{
    Seq::new(
        args.len(),
        |i: int|
            if 0 <= i < args.len() {
                alt_arg_view(args[i])
            } else {
                arbitrary()
            },
    )
}

/// The models of a list of factors.
pub open spec fn concat_args_view(args: Seq<ConcatArg>) -> Seq<Regex>
    decreases args,
{
    Seq::new(
        args.len(),
        |i: int|
            if 0 <= i < args.len() {
                concat_arg_view(args[i])
            } else {
                arbitrary()
            },
    )
}

impl View for AltArg {
    type V = Regex;

    open spec fn view(&self) -> Regex {
        alt_arg_view(*self)
    }
}

impl View for ConcatArg {
    type V = Regex;

    open spec fn view(&self) -> Regex {
        concat_arg_view(*self)
    }
}

impl View for StarArg {
    type V = Regex;

    open spec fn view(&self) -> Regex {
        star_arg_view(*self)
    }
}

impl View for ParsingResult {
    type V = Regex;

    open spec fn view(&self) -> Regex {
        match *self {
            ParsingResult::Alt { args, .. } => Regex::Alt(alt_args_view(args@)),
            ParsingResult::Concat { args, .. } => Regex::Concat(concat_args_view(args@)),
            ParsingResult::Star(b) => Regex::Star(Box::new(star_arg_view(*b))),
        }
    }
}

/// Every cached flag in the branch says whether its node is nullable.
pub open spec fn alt_arg_wf(a: AltArg) -> bool
    decreases a,
{
    match a {
        AltArg::Concat { args, accepts_empty } => {
            &&& accepts_empty == nullable(Regex::Concat(concat_args_view(args@)))
            &&& concat_args_wf(args@)
        },
        AltArg::Star(b) => star_arg_wf(*b),
    }
}

/// Every cached flag in the factor says whether its node is nullable.
pub open spec fn concat_arg_wf(a: ConcatArg) -> bool
    decreases a,
{
    match a {
        ConcatArg::Alt { args, accepts_empty } => {
            &&& accepts_empty == nullable(Regex::Alt(alt_args_view(args@)))
            &&& alt_args_wf(args@)
        },
        ConcatArg::Star(b) => star_arg_wf(*b),
        ConcatArg::Char(_) => true,
    }
}

/// Every cached flag in the body says whether its node is nullable.
pub open spec fn star_arg_wf(a: StarArg) -> bool
    decreases a,
{
    match a {
        StarArg::Alt { args, accepts_empty } => {
            &&& accepts_empty == nullable(Regex::Alt(alt_args_view(args@)))
            &&& alt_args_wf(args@)
        },
        StarArg::Concat { args, accepts_empty } => {
            &&& accepts_empty == nullable(Regex::Concat(concat_args_view(args@)))
            &&& concat_args_wf(args@)
        },
    }
}

/// All branches of the list are well formed.
pub open spec fn alt_args_wf(args: Seq<AltArg>) -> bool
    decreases args,
{
    forall|i: int| 0 <= i < args.len() ==> alt_arg_wf(#[trigger] args[i])
}

/// All factors of the list are well formed.
pub open spec fn concat_args_wf(args: Seq<ConcatArg>) -> bool
    decreases args,
{
    forall|i: int| 0 <= i < args.len() ==> concat_arg_wf(#[trigger] args[i])
}

/// Whether every factor of a well-formed list is nullable, read from the
/// cached flags.
pub fn all_accept_empty(args: &Vec<ConcatArg>) -> (r: bool)
    requires
        concat_args_wf(args@),
    ensures
        r == nullable(Regex::Concat(concat_args_view(args@))),
{
    let mut i: usize = 0;
    while i < args.len()
        invariant
            i <= args.len(),
            concat_args_wf(args@),
            forall|j: int| 0 <= j < i ==> nullable(#[trigger] concat_args_view(args@)[j]),
        decreases args.len() - i,
    {
        if !args[i].accepts_empty() {
            assert(!nullable(concat_args_view(args@)[i as int]));
            return false;
        }
        i += 1;
    }
    true
}

/// Whether some branch of a well-formed list is nullable, read from the
/// cached flags.
pub fn any_accepts_empty(args: &Vec<AltArg>) -> (r: bool)
    requires
        alt_args_wf(args@),
    ensures
        r == nullable(Regex::Alt(alt_args_view(args@))),
{
    let mut i: usize = 0;
    while i < args.len()
        invariant
            i <= args.len(),
            alt_args_wf(args@),
            forall|j: int| 0 <= j < i ==> !nullable(#[trigger] alt_args_view(args@)[j]),
        decreases args.len() - i,
    {
        if args[i].accepts_empty() {
            assert(nullable(alt_args_view(args@)[i as int]));
            return true;
        }
        i += 1;
    }
    false
}

impl AltArg {
    /// Every cached flag says whether its node is nullable.
    pub open spec fn wf(&self) -> bool {
        alt_arg_wf(*self)
    }

    /// Whether the branch is nullable, read from its cached flag.
    pub fn accepts_empty(&self) -> (r: bool)
        requires
            self.wf(),
        ensures
            r == nullable(self@),
    {
        match self {
            AltArg::Concat { accepts_empty, .. } => *accepts_empty,
            AltArg::Star(_) => true,
        }
    }

    /// The factors of a branch that is a concatenation.
    pub fn factors(&self) -> (r: &Vec<ConcatArg>)
        requires
            self@ is Concat,
        ensures
            concat_args_view(r@) == factors_of(self@),
            self.wf() ==> concat_args_wf(r@),
    {
        match self {
            AltArg::Concat { args, .. } => args,
            AltArg::Star(_) => unreached(),
        }
    }

    /// The concatenation of `args`, with its flag computed.
    pub fn concat(args: Vec<ConcatArg>) -> (r: AltArg)
        requires
            concat_args_wf(args@),
        ensures
            r@ == Regex::Concat(concat_args_view(args@)),
            r.wf(),
    {
        let accepts_empty = all_accept_empty(&args);
        AltArg::Concat { args, accepts_empty }
    }
}

impl ConcatArg {
    /// Every cached flag says whether its node is nullable.
    pub open spec fn wf(&self) -> bool {
        concat_arg_wf(*self)
    }

    /// Whether the factor is nullable, read from its cached flag.
    pub fn accepts_empty(&self) -> (r: bool)
        requires
            self.wf(),
        ensures
            r == nullable(self@),
    {
        match self {
            ConcatArg::Alt { accepts_empty, .. } => *accepts_empty,
            ConcatArg::Star(_) => true,
            ConcatArg::Char(_) => false,
        }
    }

    /// The literal `c`.
    pub fn literal(c: char) -> (r: ConcatArg)
        ensures
            r@ == Regex::Char(c),
            r.wf(),
    {
        ConcatArg::Char(c)
    }

    /// The alternation of `args`, with its flag computed.
    pub fn alt(args: Vec<AltArg>) -> (r: ConcatArg)
        requires
            alt_args_wf(args@),
        ensures
            r@ == Regex::Alt(alt_args_view(args@)),
            r.wf(),
    {
        let accepts_empty = any_accepts_empty(&args);
        ConcatArg::Alt { args, accepts_empty }
    }
}

impl StarArg {
    /// Every cached flag says whether its node is nullable.
    pub open spec fn wf(&self) -> bool {
        star_arg_wf(*self)
    }

    /// Whether the body is nullable, read from its cached flag.
    pub fn accepts_empty(&self) -> (r: bool)
        requires
            self.wf(),
        ensures
            r == nullable(self@),
    {
        match self {
            StarArg::Alt { accepts_empty, .. } => *accepts_empty,
            StarArg::Concat { accepts_empty, .. } => *accepts_empty,
        }
    }

    /// The alternation of `args`, with its flag computed.
    pub fn alt(args: Vec<AltArg>) -> (r: StarArg)
        requires
            alt_args_wf(args@),
        ensures
            r@ == Regex::Alt(alt_args_view(args@)),
            r.wf(),
    {
        let accepts_empty = any_accepts_empty(&args);
        StarArg::Alt { args, accepts_empty }
    }

    /// The concatenation of `args`, with its flag computed.
    pub fn concat(args: Vec<ConcatArg>) -> (r: StarArg)
        requires
            concat_args_wf(args@),
        ensures
            r@ == Regex::Concat(concat_args_view(args@)),
            r.wf(),
    {
        let accepts_empty = all_accept_empty(&args);
        StarArg::Concat { args, accepts_empty }
    }
}

impl ParsingResult {
    /// Every cached flag says whether its node is nullable.
    pub open spec fn wf(&self) -> bool {
        match *self {
            ParsingResult::Alt { args, accepts_empty } => {
                &&& accepts_empty == nullable(Regex::Alt(alt_args_view(args@)))
                &&& alt_args_wf(args@)
            },
            ParsingResult::Concat { args, accepts_empty } => {
                &&& accepts_empty == nullable(Regex::Concat(concat_args_view(args@)))
                &&& concat_args_wf(args@)
            },
            ParsingResult::Star(b) => star_arg_wf(*b),
        }
    }

    /// Whether the expression is nullable, read from its cached flag.
    pub fn accepts_empty(&self) -> (r: bool)
        requires
            self.wf(),
        ensures
            r == nullable(self@),
    {
        match self {
            ParsingResult::Alt { accepts_empty, .. } => *accepts_empty,
            ParsingResult::Concat { accepts_empty, .. } => *accepts_empty,
            ParsingResult::Star(_) => true,
        }
    }

    /// The expression of the one literal `c`.
    pub fn literal(c: char) -> (r: ParsingResult)
        ensures
            r@ == Regex::Concat(seq![Regex::Char(c)]),
            r.wf(),
    {
        ParsingResult::from(ConcatArg::literal(c))
    }

    /// The alternation of `args`, with its flag computed.
    pub fn alt(args: Vec<AltArg>) -> (r: ParsingResult)
        requires
            alt_args_wf(args@),
        ensures
            r@ == Regex::Alt(alt_args_view(args@)),
            r.wf(),
    {
        let accepts_empty = any_accepts_empty(&args);
        ParsingResult::Alt { args, accepts_empty }
    }

    /// The concatenation of `args`, with its flag computed.
    pub fn concat(args: Vec<ConcatArg>) -> (r: ParsingResult)
        requires
            concat_args_wf(args@),
        ensures
            r@ == Regex::Concat(concat_args_view(args@)),
            r.wf(),
    {
        let accepts_empty = all_accept_empty(&args);
        ParsingResult::Concat { args, accepts_empty }
    }
}

/// Appends one factor to a list.
pub fn push_factor(factors: &mut Vec<ConcatArg>, f: ConcatArg)
    ensures
        final(factors)@ == old(factors)@.push(f),
        concat_args_view(final(factors)@) == concat_args_view(old(factors)@).push(f@),
        concat_args_wf(old(factors)@) && f.wf() ==> concat_args_wf(final(factors)@),
{
    factors.push(f);
    assert(concat_args_view(factors@) =~= concat_args_view(old(factors)@).push(f@));
}

/// Appends the factors of `more` to a list.
pub fn append_factors(factors: &mut Vec<ConcatArg>, more: Vec<ConcatArg>)
    ensures
        final(factors)@ == old(factors)@ + more@,
        concat_args_view(final(factors)@) == concat_args_view(old(factors)@) + concat_args_view(
            more@,
        ),
        concat_args_wf(old(factors)@) && concat_args_wf(more@) ==> concat_args_wf(
            final(factors)@,
        ),
{
    let mut more = more;
    let ghost added = more@;
    factors.append(&mut more);
    proof {
        assert(concat_args_view(factors@) =~= concat_args_view(old(factors)@) + concat_args_view(
            added,
        ));
        if concat_args_wf(old(factors)@) && concat_args_wf(added) {
            assert forall|i: int| 0 <= i < factors@.len() implies concat_arg_wf(
                #[trigger] factors@[i],
            ) by {
                if i >= old(factors)@.len() {
                    assert(factors@[i] == added[i - old(factors)@.len()]);
                } else {
                    assert(factors@[i] == old(factors)@[i]);
                }
            }
        }
    }
}

/// Appends one branch to a list.
pub fn push_branch(branches: &mut Vec<AltArg>, b: AltArg)
    ensures
        final(branches)@ == old(branches)@.push(b),
        alt_args_view(final(branches)@) == alt_args_view(old(branches)@).push(b@),
        alt_args_wf(old(branches)@) && b.wf() ==> alt_args_wf(final(branches)@),
{
    branches.push(b);
    assert(alt_args_view(branches@) =~= alt_args_view(old(branches)@).push(b@));
}

/// Appends the branches of `more` to a list.
pub fn append_branches(branches: &mut Vec<AltArg>, more: Vec<AltArg>)
    ensures
        final(branches)@ == old(branches)@ + more@,
        alt_args_view(final(branches)@) == alt_args_view(old(branches)@) + alt_args_view(more@),
        alt_args_wf(old(branches)@) && alt_args_wf(more@) ==> alt_args_wf(final(branches)@),
{
    let mut more = more;
    let ghost added = more@;
    branches.append(&mut more);
    proof {
        assert(alt_args_view(branches@) =~= alt_args_view(old(branches)@) + alt_args_view(added));
        if alt_args_wf(old(branches)@) && alt_args_wf(added) {
            assert forall|i: int| 0 <= i < branches@.len() implies alt_arg_wf(
                #[trigger] branches@[i],
            ) by {
                if i >= old(branches)@.len() {
                    assert(branches@[i] == added[i - old(branches)@.len()]);
                } else {
                    assert(branches@[i] == old(branches)@[i]);
                }
            }
        }
    }
}

/// Copies of the factors from index `from` up to index `to`, with their
/// flags computed anew.
pub fn copy_factors(args: &Vec<ConcatArg>, from: usize, to: usize) -> (r: Vec<ConcatArg>)
    requires
        from <= to <= args.len(),
    ensures
        concat_args_view(r@) == concat_args_view(args@).subrange(from as int, to as int),
        concat_args_wf(r@),
{
    let mut r: Vec<ConcatArg> = Vec::new();
    let mut i: usize = from;
    while i < to
        invariant
            from <= i <= to <= args.len(),
            concat_args_wf(r@),
            concat_args_view(r@) == concat_args_view(args@).subrange(from as int, i as int),
        decreases to - i,
    {
        let item = rebuild_concat_arg(&args[i]);
        push_factor(&mut r, item);
        assert(concat_args_view(r@) =~= concat_args_view(args@).subrange(from as int, i + 1));
        i += 1;
    }
    r
}

/// A copy of the branch in which every flag is computed anew.
pub fn rebuild_alt_arg(a: &AltArg) -> (r: AltArg)
    ensures
        r@ == a@,
        r.wf(),
    decreases a,
{
    match a {
        AltArg::Concat { args, .. } => AltArg::concat(rebuild_concat_args(args)),
        AltArg::Star(b) => AltArg::Star(Box::new(rebuild_star_arg(b))),
    }
}

/// A copy of the factor in which every flag is computed anew.
pub fn rebuild_concat_arg(a: &ConcatArg) -> (r: ConcatArg)
    ensures
        r@ == a@,
        r.wf(),
    decreases a,
{
    match a {
        ConcatArg::Alt { args, .. } => ConcatArg::alt(rebuild_alt_args(args)),
        ConcatArg::Star(b) => ConcatArg::Star(Box::new(rebuild_star_arg(b))),
        ConcatArg::Char(c) => ConcatArg::Char(*c),
    }
}

/// A copy of the body in which every flag is computed anew.
pub fn rebuild_star_arg(a: &StarArg) -> (r: StarArg)
    ensures
        r@ == a@,
        r.wf(),
    decreases a,
{
    match a {
        StarArg::Alt { args, .. } => StarArg::alt(rebuild_alt_args(args)),
        StarArg::Concat { args, .. } => StarArg::concat(rebuild_concat_args(args)),
    }
}

/// Copies of the branches in which every flag is computed anew.
pub fn rebuild_alt_args(args: &Vec<AltArg>) -> (r: Vec<AltArg>)
    ensures
        alt_args_view(r@) == alt_args_view(args@),
        alt_args_wf(r@),
    decreases args,
{
    let mut r: Vec<AltArg> = Vec::new();
    let mut i: usize = 0;
    while i < args.len()
        invariant
            i <= args.len(),
            r.len() == i,
            forall|j: int| 0 <= j < i ==> (#[trigger] r@[j])@ == args@[j]@,
            alt_args_wf(r@),
        decreases args.len() - i,
    {
        let item = rebuild_alt_arg(&args[i]);
        r.push(item);
        i += 1;
    }
    assert(alt_args_view(r@) =~= alt_args_view(args@));
    r
}

/// Copies of the factors in which every flag is computed anew.
pub fn rebuild_concat_args(args: &Vec<ConcatArg>) -> (r: Vec<ConcatArg>)
    ensures
        concat_args_view(r@) == concat_args_view(args@),
        concat_args_wf(r@),
    decreases args,
{
    let mut r: Vec<ConcatArg> = Vec::new();
    let mut i: usize = 0;
    while i < args.len()
        invariant
            i <= args.len(),
            r.len() == i,
            forall|j: int| 0 <= j < i ==> (#[trigger] r@[j])@ == args@[j]@,
            concat_args_wf(r@),
        decreases args.len() - i,
    {
        let item = rebuild_concat_arg(&args[i]);
        r.push(item);
        i += 1;
    }
    assert(concat_args_view(r@) =~= concat_args_view(args@));
    r
}

impl ParsingResult {
    /// A copy of the expression in which every flag is computed anew.
    pub fn rebuild(&self) -> (r: ParsingResult)
        ensures
            r@ == self@,
            r.wf(),
    {
        match self {
            ParsingResult::Alt { args, .. } => ParsingResult::alt(rebuild_alt_args(args)),
            ParsingResult::Concat { args, .. } => ParsingResult::concat(rebuild_concat_args(args)),
            ParsingResult::Star(b) => ParsingResult::Star(Box::new(rebuild_star_arg(b))),
        }
    }

    /// The concatenation of `factors`; one factor that is no literal stands
    /// for itself.
    pub fn from_factors(factors: Vec<ConcatArg>) -> (r: ParsingResult)
        requires
            concat_args_wf(factors@),
        ensures
            r@ == unwrap_single(Regex::Concat(concat_args_view(factors@))),
            r.wf(),
    {
        let mut factors = factors;
        if factors.len() == 1 {
            let ghost fs = concat_args_view(factors@);
            let only = factors.pop().unwrap();
            assert(only@ == fs[0]);
            assert(fs =~= seq![only@]);
            assert(only.wf());
            ParsingResult::from(only)
        } else {
            ParsingResult::concat(factors)
        }
    }

    /// The alternation of `branches`; a single branch stands for itself.
    pub fn from_branches(branches: Vec<AltArg>) -> (r: ParsingResult)
        requires
            alt_args_wf(branches@),
        ensures
            r@ == pack_branches(alt_args_view(branches@)),
            r.wf(),
    {
        let mut branches = branches;
        if branches.len() == 1 {
            let ghost bs = alt_args_view(branches@);
            let only = branches.pop().unwrap();
            assert(only@ == bs[0]);
            assert(only.wf());
            ParsingResult::from(only)
        } else {
            ParsingResult::alt(branches)
        }
    }

    /// The branches that the expression contributes to an enclosing
    /// alternation.
    pub fn into_branches(self) -> (r: Vec<AltArg>)
        ensures
            alt_args_view(r@) == branches_of(self@),
            self.wf() ==> alt_args_wf(r@),
    {
        let r = match self {
            ParsingResult::Alt { args, .. } => args,
            ParsingResult::Concat { args, accepts_empty } => vec![
                AltArg::Concat { args, accepts_empty },
            ],
            ParsingResult::Star(b) => vec![AltArg::Star(b)],
        };
        assert(alt_args_view(r@) =~= branches_of(self@));
        r
    }

    /// The factors that the expression contributes to an enclosing
    /// concatenation.
    pub fn into_factors(self) -> (r: Vec<ConcatArg>)
        ensures
            concat_args_view(r@) == factors_of(self@),
            self.wf() ==> concat_args_wf(r@),
    {
        let r = match self {
            ParsingResult::Alt { args, accepts_empty } => vec![
                ConcatArg::Alt { args, accepts_empty },
            ],
            ParsingResult::Concat { args, .. } => args,
            ParsingResult::Star(b) => vec![ConcatArg::Star(b)],
        };
        assert(concat_args_view(r@) =~= factors_of(self@));
        r
    }

    /// The body of the star over the expression; the star over a star is
    /// that star.
    pub fn into_star_body(self) -> (r: StarArg)
        ensures
            Regex::Star(Box::new(r@)) == star_of(self@),
            self.wf() ==> r.wf(),
    {
        match self {
            ParsingResult::Alt { args, accepts_empty } => StarArg::Alt { args, accepts_empty },
            ParsingResult::Concat { args, accepts_empty } => StarArg::Concat {
                args,
                accepts_empty,
            },
            ParsingResult::Star(b) => *b,
        }
    }
}

impl From<AltArg> for ParsingResult {
    /// The branch as a whole expression.
    fn from(value: AltArg) -> (r: ParsingResult)
        ensures
            r@ == value@,
            value.wf() ==> r.wf(),
    {
        match value {
            AltArg::Concat { args, accepts_empty } => ParsingResult::Concat { args, accepts_empty },
            AltArg::Star(arg) => ParsingResult::Star(arg),
        }
    }
}

impl vstd::std_specs::convert::FromSpecImpl<AltArg> for ParsingResult {
    open spec fn obeys_from_spec() -> bool {
        true
    }

    open spec fn from_spec(value: AltArg) -> ParsingResult {
        match value {
            AltArg::Concat { args, accepts_empty } => ParsingResult::Concat { args, accepts_empty },
            AltArg::Star(arg) => ParsingResult::Star(arg),
        }
    }
}

impl From<ConcatArg> for ParsingResult {
    /// The factor as a whole expression; a literal becomes the concatenation
    /// of that one literal.
    fn from(value: ConcatArg) -> (r: ParsingResult)
        ensures
            r@ == as_whole(value@),
            value.wf() ==> r.wf(),
    {
        match value {
            ConcatArg::Alt { args, accepts_empty } => ParsingResult::Alt { args, accepts_empty },
            ConcatArg::Star(arg) => ParsingResult::Star(arg),
            ConcatArg::Char(c) => {
                let args = vec![ConcatArg::Char(c)];
                assert(concat_args_view(args@) =~= seq![Regex::Char(c)]);
                assert(!nullable(concat_args_view(args@)[0]));
                ParsingResult::Concat { args, accepts_empty: false }
            },
        }
    }
}

impl vstd::std_specs::convert::FromSpecImpl<ConcatArg> for ParsingResult {
    open spec fn obeys_from_spec() -> bool {
        false
    }

    open spec fn from_spec(value: ConcatArg) -> ParsingResult {
        arbitrary()
    }
}

impl From<StarArg> for ParsingResult {
    /// The body as a whole expression.
    fn from(value: StarArg) -> (r: ParsingResult)
        ensures
            r@ == value@,
            value.wf() ==> r.wf(),
    {
        match value {
            StarArg::Alt { args, accepts_empty } => ParsingResult::Alt { args, accepts_empty },
            StarArg::Concat { args, accepts_empty } => ParsingResult::Concat {
                args,
                accepts_empty,
            },
        }
    }
}

impl vstd::std_specs::convert::FromSpecImpl<StarArg> for ParsingResult {
    open spec fn obeys_from_spec() -> bool {
        true
    }

    open spec fn from_spec(value: StarArg) -> ParsingResult {
        match value {
            StarArg::Alt { args, accepts_empty } => ParsingResult::Alt { args, accepts_empty },
            StarArg::Concat { args, accepts_empty } => ParsingResult::Concat {
                args,
                accepts_empty,
            },
        }
    }
}

/// A copy of the branch, flags included.
pub fn copy_alt_arg(a: &AltArg) -> (r: AltArg)
    ensures
        r@ == a@,
        a.wf() ==> r.wf(),
    decreases a,
{
    match a {
        AltArg::Concat { args, accepts_empty } => AltArg::Concat {
            args: copy_concat_args(args),
            accepts_empty: *accepts_empty,
        },
        AltArg::Star(b) => AltArg::Star(Box::new(copy_star_arg(b))),
    }
}

/// A copy of the factor, flags included.
pub fn copy_concat_arg(a: &ConcatArg) -> (r: ConcatArg)
    ensures
        r@ == a@,
        a.wf() ==> r.wf(),
    decreases a,
{
    match a {
        ConcatArg::Alt { args, accepts_empty } => ConcatArg::Alt {
            args: copy_alt_args(args),
            accepts_empty: *accepts_empty,
        },
        ConcatArg::Star(b) => ConcatArg::Star(Box::new(copy_star_arg(b))),
        ConcatArg::Char(c) => ConcatArg::Char(*c),
    }
}

/// A copy of the body, flags included.
pub fn copy_star_arg(a: &StarArg) -> (r: StarArg)
    ensures
        r@ == a@,
        a.wf() ==> r.wf(),
    decreases a,
{
    match a {
        StarArg::Alt { args, accepts_empty } => StarArg::Alt {
            args: copy_alt_args(args),
            accepts_empty: *accepts_empty,
        },
        StarArg::Concat { args, accepts_empty } => StarArg::Concat {
            args: copy_concat_args(args),
            accepts_empty: *accepts_empty,
        },
    }
}

/// Copies of the branches, flags included.
pub fn copy_alt_args(args: &Vec<AltArg>) -> (r: Vec<AltArg>)
    ensures
        alt_args_view(r@) == alt_args_view(args@),
        alt_args_wf(args@) ==> alt_args_wf(r@),
    decreases args,
{
    let mut r: Vec<AltArg> = Vec::new();
    let mut i: usize = 0;
    while i < args.len()
        invariant
            i <= args.len(),
            r.len() == i,
            forall|j: int| 0 <= j < i ==> (#[trigger] r@[j])@ == args@[j]@,
            alt_args_wf(args@) ==> alt_args_wf(r@),
        decreases args.len() - i,
    {
        let item = copy_alt_arg(&args[i]);
        r.push(item);
        i += 1;
    }
    assert(alt_args_view(r@) =~= alt_args_view(args@));
    r
}

/// Copies of the factors, flags included.
pub fn copy_concat_args(args: &Vec<ConcatArg>) -> (r: Vec<ConcatArg>)
    ensures
        concat_args_view(r@) == concat_args_view(args@),
        concat_args_wf(args@) ==> concat_args_wf(r@),
    decreases args,
{
    let mut r: Vec<ConcatArg> = Vec::new();
    let mut i: usize = 0;
    while i < args.len()
        invariant
            i <= args.len(),
            r.len() == i,
            forall|j: int| 0 <= j < i ==> (#[trigger] r@[j])@ == args@[j]@,
            concat_args_wf(args@) ==> concat_args_wf(r@),
        decreases args.len() - i,
    {
        let item = copy_concat_arg(&args[i]);
        r.push(item);
        i += 1;
    }
    assert(concat_args_view(r@) =~= concat_args_view(args@));
    r
}

impl Clone for AltArg {
    fn clone(&self) -> (r: AltArg)
        ensures
            r@ == self@,
            self.wf() ==> r.wf(),
    {
        copy_alt_arg(self)
    }
}

impl Clone for ConcatArg {
    fn clone(&self) -> (r: ConcatArg)
        ensures
            r@ == self@,
            self.wf() ==> r.wf(),
    {
        copy_concat_arg(self)
    }
}

impl Clone for StarArg {
    fn clone(&self) -> (r: StarArg)
        ensures
            r@ == self@,
            self.wf() ==> r.wf(),
    {
        copy_star_arg(self)
    }
}

} // verus!
