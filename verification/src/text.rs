//! Writing a tree out as text.

use crate::model::{body_key, concat_keys, joined_keys, key, Regex};
use crate::node::{
    alt_args_view, concat_args_view, AltArg, ConcatArg, ParsingResult, StarArg,
};
use vstd::prelude::*;

verus! {

/// Appends the text of the branch to `out`.
pub fn write_alt_arg(a: &AltArg, out: &mut Vec<char>)
    ensures
        final(out)@ == old(out)@ + key(a@),
    decreases a, 1int,
{
    match a {
        AltArg::Concat { args, .. } => write_concat_args(args, out),
        AltArg::Star(b) => {
            out.push('(');
            write_star_arg(b, out);
            out.push(')');
            out.push('*');
            assert(out@ =~= old(out)@ + key(a@));
        },
    }
}

/// Appends the text of the factor to `out`.
pub fn write_concat_arg(a: &ConcatArg, out: &mut Vec<char>)
    ensures
        final(out)@ == old(out)@ + key(a@),
    decreases a, 1int,
{
    match a {
        ConcatArg::Alt { args, .. } => {
            out.push('(');
            write_alt_args(args, out);
            out.push(')');
            assert(out@ =~= old(out)@ + key(a@));
        },
        ConcatArg::Star(b) => {
            out.push('(');
            write_star_arg(b, out);
            out.push(')');
            out.push('*');
            assert(out@ =~= old(out)@ + key(a@));
        },
        ConcatArg::Char(c) => {
            out.push(*c);
            assert(out@ =~= old(out)@ + key(a@));
        },
    }
}

/// Appends the text of the body, without the parentheses of its star, to
/// `out`.
pub fn write_star_arg(a: &StarArg, out: &mut Vec<char>)
    ensures
        final(out)@ == old(out)@ + body_key(a@),
    decreases a, 1int,
{
    match a {
        StarArg::Alt { args, .. } => write_alt_args(args, out),
        StarArg::Concat { args, .. } => write_concat_args(args, out),
    }
}

/// Appends the texts of the factors, one after the other, to `out`.
pub fn write_concat_args(args: &Vec<ConcatArg>, out: &mut Vec<char>)
    ensures
        final(out)@ == old(out)@ + concat_keys(concat_args_view(args@)),
    decreases args, 0int,
{
    let ghost fs = concat_args_view(args@);
    let mut i: usize = 0;
    while i < args.len()
        invariant
            i <= args.len(),
            fs == concat_args_view(args@),
            out@ == old(out)@ + concat_keys(fs.take(i as int)),
        decreases args.len() - i,
    {
        let ghost before = out@;
        write_concat_arg(&args[i], out);
        proof {
            assert(fs.take(i + 1).drop_last() =~= fs.take(i as int));
            assert(out@ =~= old(out)@ + concat_keys(fs.take(i + 1)));
        }
        i += 1;
    }
    assert(fs.take(args.len() as int) =~= fs);
}

/// Appends the texts of the branches, separated by `|`, to `out`.
pub fn write_alt_args(args: &Vec<AltArg>, out: &mut Vec<char>)
    ensures
        final(out)@ == old(out)@ + joined_keys(alt_args_view(args@)),
    decreases args, 0int,
{
    let ghost bs = alt_args_view(args@);
    let mut i: usize = 0;
    while i < args.len()
        invariant
            i <= args.len(),
            bs == alt_args_view(args@),
            out@ == old(out)@ + joined_keys(bs.take(i as int)),
        decreases args.len() - i,
    {
        if i > 0 {
            out.push('|');
        }
        write_alt_arg(&args[i], out);
        proof {
            assert(bs.take(i + 1).drop_last() =~= bs.take(i as int));
            assert(out@ =~= old(out)@ + joined_keys(bs.take(i + 1)));
        }
        i += 1;
    }
    assert(bs.take(args.len() as int) =~= bs);
}

/// The characters of `s`.
pub fn chars_of(s: &str) -> (v: Vec<char>)
    ensures
        v@ == s@,
{
    let mut v: Vec<char> = Vec::new();
    for c in it: s.chars()
        invariant
            v@ == it.seq().take(it.index()),
            it.seq() == s@,
    {
        v.push(c);
    }
    v
}

/// Appends the characters of `s` to `out`.
pub fn push_str(out: &mut Vec<char>, s: &str)
    ensures
        final(out)@ == old(out)@ + s@,
{
    let mut v = chars_of(s);
    out.append(&mut v);
}

/// `String::from_iter` over the characters of a vector: the string made of
/// exactly those characters, in order.
#[verifier::external_body]
pub(crate) fn string_from_chars(chars: &Vec<char>) -> (s: String)
    ensures
        s@ == chars@,
{
    String::from_iter(chars.iter())
}

impl AltArg {
    /// The text of the branch, by which it is ordered and compared.
    pub fn key(&self) -> (k: Vec<char>)
        ensures
            k@ == key(self@),
    {
        let mut k: Vec<char> = Vec::new();
        write_alt_arg(self, &mut k);
        k
    }

    /// The text of the branch.
    pub fn to_string(&self) -> (s: String)
        ensures
            s@ == key(self@),
    {
        string_from_chars(&self.key())
    }
}

impl ConcatArg {
    /// The text of the factor, by which it is compared.
    pub fn key(&self) -> (k: Vec<char>)
        ensures
            k@ == key(self@),
    {
        let mut k: Vec<char> = Vec::new();
        write_concat_arg(self, &mut k);
        k
    }

    /// The text of the factor.
    pub fn to_string(&self) -> (s: String)
        ensures
            s@ == key(self@),
    {
        string_from_chars(&self.key())
    }
}

impl StarArg {
    /// The text of the body, without the parentheses of its star.
    pub fn to_string(&self) -> (s: String)
        ensures
            s@ == body_key(self@),
    {
        let mut k: Vec<char> = Vec::new();
        write_star_arg(self, &mut k);
        string_from_chars(&k)
    }
}

impl ParsingResult {
    /// The text of the expression.
    pub fn key(&self) -> (k: Vec<char>)
        ensures
            k@ == key(self@),
    {
        let mut k: Vec<char> = Vec::new();
        match self {
            ParsingResult::Alt { args, .. } => {
                k.push('(');
                write_alt_args(args, &mut k);
                k.push(')');
            },
            ParsingResult::Concat { args, .. } => {
                write_concat_args(args, &mut k);
            },
            ParsingResult::Star(b) => {
                k.push('(');
                write_star_arg(b, &mut k);
                k.push(')');
                k.push('*');
            },
        }
        assert(k@ =~= key(self@));
        k
    }

    /// The text of the expression: factors juxtaposed, branches joined by
    /// `|` inside parentheses, a star behind its parenthesized body.
    pub fn to_string(&self) -> (s: String)
        ensures
            s@ == key(self@),
    {
        string_from_chars(&self.key())
    }
}

} // verus!
