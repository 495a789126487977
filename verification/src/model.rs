//! The mathematical model of an expression, its nullability and its text.

use vstd::prelude::*;

verus! {

/// An expression as a mathematical tree. The concrete tree types all view
/// into this one type, so that every pass is specified once.
pub enum Regex {
    /// The union of the branches; no branches is the empty language.
    Alt(Seq<Regex>),
    /// The factors in order; no factors is the empty string.
    Concat(Seq<Regex>),
    /// Zero or more repetitions of the body.
    Star(Box<Regex>),
    /// One symbol of the alphabet.
    Char(char),
}

/// The expression that accepts exactly the empty string.
pub open spec fn epsilon() -> Regex {
    Regex::Concat(Seq::empty())
}

/// Whether the language of `r` contains the empty string: an alternation is
/// nullable when a branch is, a concatenation when every factor is, a star
/// always and a literal never.
pub open spec fn nullable(r: Regex) -> bool
    decreases r,
{
    match r {
        Regex::Alt(bs) => any_nullable(bs),
        Regex::Concat(fs) => all_nullable(fs),
        Regex::Star(_) => true,
        Regex::Char(_) => false,
    }
}

/// Some expression of `bs` is nullable.
pub open spec fn any_nullable(bs: Seq<Regex>) -> bool
    decreases bs,
{
    exists|i: int| 0 <= i < bs.len() && nullable(#[trigger] bs[i])
}

/// Every expression of `fs` is nullable.
pub open spec fn all_nullable(fs: Seq<Regex>) -> bool
    decreases fs,
{
    forall|i: int| 0 <= i < fs.len() ==> nullable(#[trigger] fs[i])
}

/// The text of `r`: factors are juxtaposed, the branches of an alternation are
/// joined by `|` inside parentheses, and a star is written behind its
/// parenthesized body. This text is also the key by which canonicalization
/// orders and compares subtrees.
pub open spec fn key(r: Regex) -> Seq<char>
    decreases r, 1int,
{
    match r {
        Regex::Alt(bs) => seq!['('] + joined_keys(bs) + seq![')'],
        Regex::Concat(fs) => concat_keys(fs),
        Regex::Star(b) => seq!['('] + body_key(*b) + seq![')', '*'],
        Regex::Char(c) => seq![c],
    }
}

/// The text of a star's body: the parentheses of the star stand for those of
/// an alternation.
pub open spec fn body_key(r: Regex) -> Seq<char>
    decreases r, 2int,
{
    match r {
        Regex::Alt(bs) => joined_keys(bs),
        _ => key(r),
    }
}

/// The texts of `fs`, one after the other.
pub open spec fn concat_keys(fs: Seq<Regex>) -> Seq<char>
    decreases fs, 0int,
{
    if fs.len() == 0 {
        Seq::empty()
    } else {
        concat_keys(fs.drop_last()) + key(fs.last())
    }
}

/// The texts of `bs`, separated by `|`.
pub open spec fn joined_keys(bs: Seq<Regex>) -> Seq<char>
    decreases bs, 0int,
{
    if bs.len() == 0 {
        Seq::empty()
    } else if bs.len() == 1 {
        key(bs[0])
    } else {
        joined_keys(bs.drop_last()) + seq!['|'] + key(bs.last())
    }
}

/// The branches that `r` contributes to an enclosing alternation: its own
/// branches if it is an alternation, else itself.
pub open spec fn branches_of(r: Regex) -> Seq<Regex> {
    match r {
        Regex::Alt(bs) => bs,
        _ => seq![r],
    }
}

/// The factors that `r` contributes to an enclosing concatenation: its own
/// factors if it is a concatenation, else itself.
pub open spec fn factors_of(r: Regex) -> Seq<Regex> {
    match r {
        Regex::Concat(fs) => fs,
        _ => seq![r],
    }
}

/// The star over `r`; a star over a star is that star.
pub open spec fn star_of(r: Regex) -> Regex {
    match r {
        Regex::Star(_) => r,
        _ => Regex::Star(Box::new(r)),
    }
}

/// A concatenation of exactly one factor that is not a literal stands for
/// that factor; every other expression stands for itself.
pub open spec fn unwrap_single(r: Regex) -> Regex {
    match r {
        Regex::Concat(fs) => if fs.len() == 1 && !(fs[0] is Char) {
            fs[0]
        } else {
            r
        },
        _ => r,
    }
}

/// What an alternation over `bs` stands for where a single branch is
/// returned unwrapped.
pub open spec fn pack_branches(bs: Seq<Regex>) -> Regex {
    if bs.len() == 1 {
        bs[0]
    } else {
        Regex::Alt(bs)
    }
}

/// `r` as a whole expression: a literal stands as the concatenation of that
/// one literal.
pub open spec fn as_whole(r: Regex) -> Regex {
    match r {
        Regex::Char(_) => Regex::Concat(seq![r]),
        _ => r,
    }
}

} // verus!
