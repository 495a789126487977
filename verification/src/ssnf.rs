//! Star normal form: no star is left over a body that accepts the empty
//! string.

use crate::model::{all_nullable, any_nullable, branches_of, nullable, star_of, Regex};
use crate::node::{
    alt_args_view, alt_args_wf, append_branches, concat_args_view, concat_args_wf, push_branch,
    push_factor, AltArg, ConcatArg, ParsingResult, StarArg,
};
use crate::tidy::{
    lemma_branches_tidy, lemma_star_tidy, lemma_tidy_branches_add, lemma_tidy_plain,
    lemma_tree_tidy, plain, solid, tidy, tidy_branches, tidy_factors,
};
use vstd::prelude::*;

verus! {

/// The star normal form of `r`: every star in it stands over the stripped
/// form of its body.
pub open spec fn ssnf_of(r: Regex) -> Regex
    decreases r,
{
    match r {
        Regex::Alt(bs) => Regex::Alt(ssnf_of_each(bs)),
        Regex::Concat(fs) => Regex::Concat(ssnf_of_each(fs)),
        Regex::Star(b) => star_of(ss_of(*b)),
        Regex::Char(_) => r,
    }
}

/// The star normal form of each expression of `rs`.
pub open spec fn ssnf_of_each(rs: Seq<Regex>) -> Seq<Regex>
    decreases rs,
{
    Seq::new(
        rs.len(),
        |i: int|
            if 0 <= i < rs.len() {
                ssnf_of(rs[i])
            } else {
                arbitrary()
            },
    )
}

/// The body of a star, stripped: an expression that does not accept the
/// empty string and has the same star. A concatenation whose factors are all
/// nullable becomes the alternation of its stripped factors; any other
/// concatenation is brought into star normal form; an alternation is
/// stripped branch by branch; a star gives way to its stripped body.
pub open spec fn ss_of(r: Regex) -> Regex
    decreases r,
{
    match r {
        Regex::Alt(bs) => Regex::Alt(ss_of_each(bs)),
        Regex::Concat(fs) => if all_nullable(fs) {
            Regex::Alt(ss_of_each(fs))
        } else {
            Regex::Concat(ssnf_of_each(fs))
        },
        Regex::Star(b) => ss_of(*b),
        Regex::Char(_) => Regex::Concat(seq![r]),
    }
}

/// The branches that the stripped forms of `rs` contribute, in order.
pub open spec fn ss_of_each(rs: Seq<Regex>) -> Seq<Regex>
    decreases rs,
{
    if rs.len() == 0 {
        Seq::empty()
    } else {
        ss_of_each(rs.drop_last()) + branches_of(ss_of(rs.last()))
    }
}

/// `r` is in star normal form: no star in it stands over a body that
/// accepts the empty string.
pub open spec fn star_normal(r: Regex) -> bool
    decreases r,
{
    match r {
        Regex::Alt(bs) => star_normal_each(bs),
        Regex::Concat(fs) => star_normal_each(fs),
        Regex::Star(b) => !nullable(*b) && star_normal(*b),
        Regex::Char(_) => true,
    }
}

/// Every expression of `rs` is in star normal form.
pub open spec fn star_normal_each(rs: Seq<Regex>) -> bool
    decreases rs,
{
    forall|i: int| 0 <= i < rs.len() ==> star_normal(#[trigger] rs[i])
}

/// No expression of `rs` is nullable, and each is in star normal form.
pub open spec fn stripped_each(rs: Seq<Regex>) -> bool {
    forall|i: int| 0 <= i < rs.len() ==> !nullable(#[trigger] rs[i]) && star_normal(rs[i])
}

/// Star normal form keeps nullability.
pub proof fn lemma_ssnf_nullable(r: Regex)
    ensures
        nullable(ssnf_of(r)) == nullable(r),
    decreases r,
{
    match r {
        Regex::Alt(bs) => {
            let out = ssnf_of_each(bs);
            assert forall|i: int| 0 <= i < bs.len() implies nullable(#[trigger] out[i])
                == nullable(bs[i]) by {
                lemma_ssnf_nullable(bs[i]);
            }
            if any_nullable(bs) {
                let i = choose|i: int| 0 <= i < bs.len() && nullable(#[trigger] bs[i]);
                assert(nullable(out[i]));
            }
            if any_nullable(out) {
                let i = choose|i: int| 0 <= i < out.len() && nullable(#[trigger] out[i]);
                assert(nullable(bs[i]));
            }
        },
        Regex::Concat(fs) => {
            let out = ssnf_of_each(fs);
            assert forall|i: int| 0 <= i < fs.len() implies nullable(#[trigger] out[i])
                == nullable(fs[i]) by {
                lemma_ssnf_nullable(fs[i]);
            }
            if all_nullable(fs) {
                assert forall|i: int| 0 <= i < out.len() implies nullable(#[trigger] out[i]) by {
                    assert(nullable(fs[i]));
                }
            }
            if all_nullable(out) {
                assert forall|i: int| 0 <= i < fs.len() implies nullable(#[trigger] fs[i]) by {
                    assert(nullable(out[i]));
                }
            }
        },
        Regex::Star(b) => {},
        Regex::Char(_) => {},
    }
}

/// The star normal form of every expression is in star normal form.
pub proof fn lemma_ssnf_star_normal(r: Regex)
    ensures
        star_normal(ssnf_of(r)),
    decreases r, 1int,
{
    match r {
        Regex::Alt(bs) => {
            lemma_ssnf_each_star_normal(bs);
        },
        Regex::Concat(fs) => {
            lemma_ssnf_each_star_normal(fs);
        },
        Regex::Star(b) => {
            lemma_ss_stripped(*b);
        },
        Regex::Char(_) => {},
    }
}

proof fn lemma_ssnf_each_star_normal(rs: Seq<Regex>)
    ensures
        star_normal_each(ssnf_of_each(rs)),
    decreases rs, 0int,
{
    let out = ssnf_of_each(rs);
    assert forall|i: int| 0 <= i < out.len() implies star_normal(#[trigger] out[i]) by {
        lemma_ssnf_star_normal(rs[i]);
    }
}

/// The stripped form of every expression is an alternation or a
/// concatenation in star normal form that is not nullable.
pub proof fn lemma_ss_stripped(r: Regex)
    ensures
        !nullable(ss_of(r)),
        star_normal(ss_of(r)),
        ss_of(r) is Alt || ss_of(r) is Concat,
    decreases r, 1int,
{
    match r {
        Regex::Alt(bs) => {
            lemma_ss_each_stripped(bs);
            let out = ss_of_each(bs);
            assert(!any_nullable(out));
            assert(star_normal_each(out));
        },
        Regex::Concat(fs) => {
            if all_nullable(fs) {
                lemma_ss_each_stripped(fs);
                let out = ss_of_each(fs);
                assert(!any_nullable(out));
                assert(star_normal_each(out));
            } else {
                let out = ssnf_of_each(fs);
                lemma_ssnf_each_star_normal(fs);
                let i = choose|i: int| 0 <= i < fs.len() && !nullable(#[trigger] fs[i]);
                lemma_ssnf_nullable(fs[i]);
                assert(!nullable(out[i]));
            }
        },
        Regex::Star(b) => {
            lemma_ss_stripped(*b);
        },
        Regex::Char(_) => {
            let one = seq![r];
            assert(!nullable(one[0]));
            assert(star_normal_each(one));
        },
    }
}

proof fn lemma_ss_each_stripped(rs: Seq<Regex>)
    ensures
        stripped_each(ss_of_each(rs)),
    decreases rs, 0int,
{
    if rs.len() > 0 {
        let front = ss_of_each(rs.drop_last());
        let last = ss_of(rs.last());
        let bs = branches_of(last);
        lemma_ss_each_stripped(rs.drop_last());
        lemma_ss_stripped(rs.last());
        assert(stripped_each(bs)) by {
            match last {
                Regex::Alt(ys) => {
                    assert(!any_nullable(ys));
                    assert(star_normal_each(ys));
                },
                _ => {
                    assert(bs[0] == last);
                },
            }
        }
        let out = front + bs;
        assert forall|i: int| 0 <= i < out.len() implies !nullable(#[trigger] out[i])
            && star_normal(out[i]) by {
            if i < front.len() {
                assert(out[i] == front[i]);
            } else {
                assert(out[i] == bs[i - front.len()]);
            }
        }
    }
}

/// Every expression of `rs` is tidy.
pub open spec fn tidy_each(rs: Seq<Regex>) -> bool {
    forall|i: int| 0 <= i < rs.len() ==> tidy(#[trigger] rs[i])
}

/// The star normal form of a tidy expression is tidy and of the same kind.
pub proof fn lemma_ssnf_tidy(r: Regex)
    requires
        tidy(r),
    ensures
        tidy(ssnf_of(r)),
        ssnf_of(r) is Alt <==> r is Alt,
        ssnf_of(r) is Concat <==> r is Concat,
        ssnf_of(r) is Star <==> r is Star,
        solid(r) ==> solid(ssnf_of(r)),
    decreases r, 1int,
{
    match r {
        Regex::Alt(bs) => {
            let out = ssnf_of_each(bs);
            assert(tidy_branches(bs));
            assert forall|i: int| 0 <= i < out.len() implies {
                let b = #[trigger] out[i];
                (b is Concat || b is Star) && tidy(b)
            } by {
                lemma_ssnf_tidy(bs[i]);
            }
            assert(tidy_branches(out));
        },
        Regex::Concat(fs) => {
            lemma_ssnf_factors_tidy(fs);
        },
        Regex::Star(b) => {
            lemma_ss_tidy(*b);
            lemma_star_tidy(ss_of(*b));
        },
        Regex::Char(_) => {},
    }
}

/// The star normal forms of tidy factors are tidy factors.
proof fn lemma_ssnf_factors_tidy(fs: Seq<Regex>)
    requires
        tidy_factors(fs),
    ensures
        tidy_factors(ssnf_of_each(fs)),
    decreases fs, 0int,
{
    let out = ssnf_of_each(fs);
    assert forall|i: int| 0 <= i < out.len() implies {
        let f = #[trigger] out[i];
        !(f is Concat) && solid(f) && tidy(f)
    } by {
        lemma_ssnf_tidy(fs[i]);
    }
}

/// The stripped form of a tidy expression is a tidy alternation or
/// concatenation.
pub proof fn lemma_ss_tidy(r: Regex)
    requires
        tidy(r),
    ensures
        tidy(ss_of(r)),
        ss_of(r) is Alt || ss_of(r) is Concat,
    decreases r, 1int,
{
    match r {
        Regex::Alt(bs) => {
            assert(tidy_branches(bs));
            lemma_ss_each_tidy(bs);
        },
        Regex::Concat(fs) => {
            assert(tidy_factors(fs));
            if all_nullable(fs) {
                lemma_ss_each_tidy(fs);
            } else {
                lemma_ssnf_factors_tidy(fs);
            }
        },
        Regex::Star(b) => {
            lemma_ss_tidy(*b);
        },
        Regex::Char(c) => {
            assert(seq![r][0] == r);
            assert(tidy_factors(seq![r]));
        },
    }
}

/// The branches that the stripped forms of tidy expressions contribute are
/// tidy branches.
proof fn lemma_ss_each_tidy(rs: Seq<Regex>)
    requires
        tidy_each(rs),
    ensures
        tidy_branches(ss_of_each(rs)),
    decreases rs, 0int,
{
    if rs.len() > 0 {
        let front = rs.drop_last();
        assert forall|i: int| 0 <= i < front.len() implies tidy(#[trigger] front[i]) by {
            assert(front[i] == rs[i]);
        }
        assert(tidy(rs[rs.len() - 1]));
        lemma_ss_each_tidy(front);
        lemma_ss_tidy(rs.last());
        lemma_branches_tidy(ss_of(rs.last()));
        lemma_tidy_branches_add(ss_of_each(front), branches_of(ss_of(rs.last())));
    }
}

fn ssnf_alt_arg(a: &AltArg) -> (r: AltArg)
    requires
        a.wf(),
    ensures
        r@ == ssnf_of(a@),
        r.wf(),
    decreases a,
{
    match a {
        AltArg::Concat { args, .. } => AltArg::concat(ssnf_factors(args)),
        AltArg::Star(b) => AltArg::Star(Box::new(ss(b).into_star_body())),
    }
}

fn ssnf_concat_arg(a: &ConcatArg) -> (r: ConcatArg)
    requires
        a.wf(),
    ensures
        r@ == ssnf_of(a@),
        r.wf(),
    decreases a,
{
    match a {
        ConcatArg::Alt { args, .. } => ConcatArg::alt(ssnf_branches(args)),
        ConcatArg::Star(b) => ConcatArg::Star(Box::new(ss(b).into_star_body())),
        ConcatArg::Char(c) => ConcatArg::literal(*c),
    }
}

fn ssnf_branches(args: &Vec<AltArg>) -> (r: Vec<AltArg>)
    requires
        alt_args_wf(args@),
    ensures
        alt_args_view(r@) == ssnf_of_each(alt_args_view(args@)),
        alt_args_wf(r@),
    decreases args,
{
    let mut r: Vec<AltArg> = Vec::new();
    let mut i: usize = 0;
    while i < args.len()
        invariant
            i <= args.len(),
            alt_args_wf(args@),
            alt_args_wf(r@),
            alt_args_view(r@) == ssnf_of_each(alt_args_view(args@)).take(i as int),
        decreases args.len() - i,
    {
        let item = ssnf_alt_arg(&args[i]);
        push_branch(&mut r, item);
        assert(alt_args_view(r@) =~= ssnf_of_each(alt_args_view(args@)).take(i + 1));
        i += 1;
    }
    assert(alt_args_view(r@) =~= ssnf_of_each(alt_args_view(args@)));
    r
}

fn ssnf_factors(args: &Vec<ConcatArg>) -> (r: Vec<ConcatArg>)
    requires
        concat_args_wf(args@),
    ensures
        concat_args_view(r@) == ssnf_of_each(concat_args_view(args@)),
        concat_args_wf(r@),
    decreases args,
{
    let mut r: Vec<ConcatArg> = Vec::new();
    let mut i: usize = 0;
    while i < args.len()
        invariant
            i <= args.len(),
            concat_args_wf(args@),
            concat_args_wf(r@),
            concat_args_view(r@) == ssnf_of_each(concat_args_view(args@)).take(i as int),
        decreases args.len() - i,
    {
        let item = ssnf_concat_arg(&args[i]);
        push_factor(&mut r, item);
        assert(concat_args_view(r@) =~= ssnf_of_each(concat_args_view(args@)).take(i + 1));
        i += 1;
    }
    assert(concat_args_view(r@) =~= ssnf_of_each(concat_args_view(args@)));
    r
}

/// The stripped form of the body of a star.
fn ss(a: &StarArg) -> (r: ParsingResult)
    requires
        a.wf(),
    ensures
        r@ == ss_of(a@),
        r.wf(),
    decreases a,
{
    match a {
        StarArg::Alt { args, .. } => ParsingResult::alt(ss_branches(args)),
        StarArg::Concat { args, accepts_empty } => if *accepts_empty {
            ParsingResult::alt(ss_factors(args))
        } else {
            ParsingResult::concat(ssnf_factors(args))
        },
    }
}

fn ss_alt_arg(a: &AltArg) -> (r: ParsingResult)
    requires
        a.wf(),
    ensures
        r@ == ss_of(a@),
        r.wf(),
    decreases a,
{
    match a {
        AltArg::Concat { args, accepts_empty } => if *accepts_empty {
            ParsingResult::alt(ss_factors(args))
        } else {
            ParsingResult::concat(ssnf_factors(args))
        },
        AltArg::Star(b) => ss(b),
    }
}

fn ss_concat_arg(a: &ConcatArg) -> (r: ParsingResult)
    requires
        a.wf(),
    ensures
        r@ == ss_of(a@),
        r.wf(),
    decreases a,
{
    match a {
        ConcatArg::Alt { args, .. } => ParsingResult::alt(ss_branches(args)),
        ConcatArg::Star(b) => ss(b),
        ConcatArg::Char(c) => ParsingResult::literal(*c),
    }
}

fn ss_branches(args: &Vec<AltArg>) -> (r: Vec<AltArg>)
    requires
        alt_args_wf(args@),
    ensures
        alt_args_view(r@) == ss_of_each(alt_args_view(args@)),
        alt_args_wf(r@),
    decreases args,
{
    let ghost bs = alt_args_view(args@);
    let mut r: Vec<AltArg> = Vec::new();
    let mut i: usize = 0;
    assert(alt_args_view(r@) =~= Seq::empty());
    while i < args.len()
        invariant
            i <= args.len(),
            bs == alt_args_view(args@),
            alt_args_wf(args@),
            alt_args_wf(r@),
            alt_args_view(r@) == ss_of_each(bs.take(i as int)),
        decreases args.len() - i,
    {
        let item = ss_alt_arg(&args[i]);
        append_branches(&mut r, item.into_branches());
        assert(bs.take(i + 1).drop_last() =~= bs.take(i as int));
        i += 1;
    }
    assert(bs.take(args.len() as int) =~= bs);
    r
}

fn ss_factors(args: &Vec<ConcatArg>) -> (r: Vec<AltArg>)
    requires
        concat_args_wf(args@),
    ensures
        alt_args_view(r@) == ss_of_each(concat_args_view(args@)),
        alt_args_wf(r@),
    decreases args,
{
    let ghost fs = concat_args_view(args@);
    let mut r: Vec<AltArg> = Vec::new();
    let mut i: usize = 0;
    assert(alt_args_view(r@) =~= Seq::empty());
    while i < args.len()
        invariant
            i <= args.len(),
            fs == concat_args_view(args@),
            concat_args_wf(args@),
            alt_args_wf(r@),
            alt_args_view(r@) == ss_of_each(fs.take(i as int)),
        decreases args.len() - i,
    {
        let item = ss_concat_arg(&args[i]);
        append_branches(&mut r, item.into_branches());
        assert(fs.take(i + 1).drop_last() =~= fs.take(i as int));
        i += 1;
    }
    assert(fs.take(args.len() as int) =~= fs);
    r
}

/// Brings `arg` into star normal form. The flags of `arg` are not trusted;
/// those of the result are computed.
pub fn ssnf(arg: ParsingResult) -> (r: ParsingResult)
    ensures
        r@ == ssnf_of(arg@),
        r.wf(),
        star_normal(r@),
        nullable(r@) == nullable(arg@),
        plain(arg@) ==> plain(r@),
{
    proof {
        lemma_ssnf_star_normal(arg@);
        lemma_ssnf_nullable(arg@);
        if plain(arg@) {
            lemma_tree_tidy(arg);
            lemma_ssnf_tidy(arg@);
            lemma_tidy_plain(ssnf_of(arg@));
        }
    }
    let arg = arg.rebuild();
    match &arg {
        ParsingResult::Alt { args, .. } => ParsingResult::alt(ssnf_branches(args)),
        ParsingResult::Concat { args, .. } => ParsingResult::concat(ssnf_factors(args)),
        ParsingResult::Star(b) => ParsingResult::Star(Box::new(ss(b).into_star_body())),
    }
}

} // verus!
