//! Reading an expression from text.
//!
//! The grammar, from low to high precedence: an alternative is one or more
//! unaries separated by `|`; a unary is a run of zero or more starred atoms;
//! a starred atom is an atom followed by any number of `*`; an atom is a
//! parenthesized alternative or one literal character.

use crate::model::{branches_of, factors_of, pack_branches, star_of, unwrap_single, Regex};
use crate::node::{
    alt_args_view, alt_args_wf, append_branches, append_factors, concat_args_view,
    concat_args_wf, push_factor,
};
pub use crate::node::{AltArg, ConcatArg, ParsingResult, StarArg};
use crate::text::{chars_of, push_str, string_from_chars};
use crate::tidy::{
    is_operator, lemma_branches_tidy, lemma_factors_tidy, lemma_pack_tidy, lemma_star_tidy,
    lemma_tidy_branches_add, lemma_tidy_factors_add, lemma_tidy_plain, lemma_unwrap_tidy, plain,
    solid, tidy, tidy_branches, tidy_factors,
};
use vstd::prelude::*;

verus! {

/// Why and where a text is not an expression. The position counts
/// characters from one.
#[derive(Debug, PartialEq, Eq)]
pub struct SyntaxError {
    pub position: usize,
    pub message: String,
}

/// The outcome of reading a part of the text.
pub enum Parsed {
    /// An expression was read; `next` is the index behind it.
    Done { value: Regex, next: int },
    /// The text is malformed.
    Failed { position: int, message: Seq<char> },
}

/// The message for a `*` that follows no operand.
pub open spec fn dangling_star_message() -> Seq<char> {
    "expected something before `*`"@
}

/// The message for a character, or the end of the text, where `expected`
/// must stand.
pub open spec fn mismatch_message(expected: char, found: Option<char>) -> Seq<char> {
    "expected '"@ + seq![expected] + "', but '"@ + match found {
        Some(c) => seq![c],
        None => "EOF"@,
    } + "' found"@
}

/// The message for a group that the end of the text leaves open.
pub open spec fn unexpected_end_message() -> Seq<char> {
    mismatch_message(')', None)
}

/// The message for a `)` that closes no group.
pub open spec fn unbalanced_close_message() -> Seq<char> {
    "expected 'EOF', but ')' found"@
}

/// The index of the first character at or behind `pos` that is not `*`.
pub open spec fn skip_stars(s: Seq<char>, pos: int) -> int
    decreases s.len() - pos,
{
    if 0 <= pos < s.len() && s[pos] == '*' {
        skip_stars(s, pos + 1)
    } else {
        pos
    }
}

/// Reads an atom at `pos`, where a character other than `)`, `|` and `*`
/// stands: a group up to its closing parenthesis, or one literal. The end of
/// the text inside a group is an error at the position of the last character.
pub open spec fn parse_atom(s: Seq<char>, pos: int) -> Parsed
    decreases s.len() - pos, 1int,
{
    if 0 <= pos < s.len() && s[pos] == '(' {
        match parse_alternative(s, pos + 1, Seq::empty()) {
            Parsed::Done { value, next } => if next < s.len() {
                Parsed::Done { value, next: next + 1 }
            } else {
                Parsed::Failed { position: s.len() as int, message: unexpected_end_message() }
            },
            failed => failed,
        }
    } else {
        Parsed::Done { value: Regex::Concat(seq![Regex::Char(s[pos])]), next: pos + 1 }
    }
}

/// Reads the rest of a unary from `pos`, behind the factors `acc`. An atom
/// followed by stars adds the one star over it; an atom without a star adds
/// its factors. The unary ends before `)`, `|` or the end of the text; a
/// unary of one factor that is no literal is that factor. A `*` where an
/// atom must start is an error at that `*`.
///
/// An atom and its stars always end behind `pos` and inside the text
/// ([`lemma_parse_progress`]); the test for it only shows that the reading
/// ends.
pub open spec fn parse_unary(s: Seq<char>, pos: int, acc: Seq<Regex>) -> Parsed
    decreases s.len() - pos, 2int,
{
    if pos < 0 || pos >= s.len() || s[pos] == ')' || s[pos] == '|' {
        Parsed::Done { value: unwrap_single(Regex::Concat(acc)), next: pos }
    } else if s[pos] == '*' {
        Parsed::Failed { position: pos + 1, message: dangling_star_message() }
    } else {
        match parse_atom(s, pos) {
            Parsed::Done { value, next } => {
                let after = skip_stars(s, next);
                let factors = if after > next {
                    seq![star_of(value)]
                } else {
                    factors_of(value)
                };
                if pos < after <= s.len() {
                    parse_unary(s, after, acc + factors)
                } else {
                    Parsed::Done { value, next }
                }
            },
            failed => failed,
        }
    }
}

/// Reads the rest of an alternative from `pos`, behind the branches `acc`:
/// unaries separated by `|`, each adding its branches. An alternative of one
/// branch is that branch. A unary never ends before `pos`
/// ([`lemma_parse_progress`]); the test for it only shows that the reading
/// ends.
pub open spec fn parse_alternative(s: Seq<char>, pos: int, acc: Seq<Regex>) -> Parsed
    decreases s.len() - pos, 3int,
{
    match parse_unary(s, pos, Seq::empty()) {
        Parsed::Done { value, next } => {
            let branches = acc + branches_of(value);
            if pos <= next < s.len() && s[next] == '|' {
                parse_alternative(s, next + 1, branches)
            } else {
                Parsed::Done { value: pack_branches(branches), next }
            }
        },
        failed => failed,
    }
}

/// Reads the whole text as one alternative. A `)` that closes no group is an
/// error at that `)`.
pub open spec fn parse_text(s: Seq<char>) -> Parsed {
    match parse_alternative(s, 0, Seq::empty()) {
        Parsed::Done { value, next } => if next < s.len() {
            Parsed::Failed { position: next + 1, message: unbalanced_close_message() }
        } else {
            Parsed::Done { value, next }
        },
        failed => failed,
    }
}

/// The stars at `pos` end at or behind `pos`, inside the text.
pub proof fn lemma_skip_stars(s: Seq<char>, pos: int)
    requires
        0 <= pos <= s.len(),
    ensures
        pos <= skip_stars(s, pos) <= s.len(),
    decreases s.len() - pos,
{
    if pos < s.len() && s[pos] == '*' {
        lemma_skip_stars(s, pos + 1);
    }
}

/// What is read ends inside the text: an atom behind where it starts, a
/// unary and an alternative not before.
pub proof fn lemma_parse_progress(s: Seq<char>, pos: int, acc: Seq<Regex>)
    requires
        0 <= pos <= s.len(),
    ensures
        pos < s.len() ==> (parse_atom(s, pos) matches Parsed::Done { next, .. } ==> pos < next
            <= s.len()),
        parse_unary(s, pos, acc) matches Parsed::Done { next, .. } ==> pos <= next <= s.len(),
        parse_alternative(s, pos, acc) matches Parsed::Done { next, .. } ==> pos <= next
            <= s.len(),
    decreases s.len() - pos,
{
    if pos < s.len() {
        lemma_parse_progress(s, pos + 1, Seq::empty());
        match parse_atom(s, pos) {
            Parsed::Done { value, next } => {
                lemma_skip_stars(s, next);
                let after = skip_stars(s, next);
                let factors = if after > next {
                    seq![star_of(value)]
                } else {
                    factors_of(value)
                };
                if !(s[pos] == ')' || s[pos] == '|' || s[pos] == '*') {
                    lemma_parse_progress(s, after, acc + factors);
                    lemma_parse_progress(s, after, factors);
                }
            },
            _ => {},
        }
    }
    match parse_unary(s, pos, Seq::empty()) {
        Parsed::Done { value, next } => {
            if pos <= next < s.len() && s[next] == '|' {
                lemma_parse_progress(s, next + 1, acc + branches_of(value));
            }
        },
        _ => {},
    }
}

/// The concatenation of one literal that is no operator character is tidy.
proof fn lemma_literal_tidy(c: char)
    requires
        !is_operator(c),
    ensures
        tidy(Regex::Concat(seq![Regex::Char(c)])),
        solid(Regex::Concat(seq![Regex::Char(c)])),
{
    assert(seq![Regex::Char(c)][0] == Regex::Char(c));
    assert(tidy_factors(seq![Regex::Char(c)]));
}

/// An atom that is read is tidy and no literal alone.
proof fn lemma_parse_atom_tidy(s: Seq<char>, pos: int)
    requires
        0 <= pos < s.len(),
        s[pos] != ')',
        s[pos] != '|',
        s[pos] != '*',
    ensures
        parse_atom(s, pos) matches Parsed::Done { value, .. } ==> tidy(value) && solid(value) && !(
        value is Char),
    decreases s.len() - pos, 1int,
{
    if s[pos] == '(' {
        lemma_parse_alternative_tidy(s, pos + 1, Seq::empty());
    } else {
        lemma_literal_tidy(s[pos]);
    }
}

/// A unary that is read behind tidy factors is tidy and no literal alone.
proof fn lemma_parse_unary_tidy(s: Seq<char>, pos: int, acc: Seq<Regex>)
    requires
        0 <= pos <= s.len(),
        tidy_factors(acc),
    ensures
        parse_unary(s, pos, acc) matches Parsed::Done { value, .. } ==> tidy(value) && solid(value)
            && !(value is Char),
    decreases s.len() - pos, 2int,
{
    if pos >= s.len() || s[pos] == ')' || s[pos] == '|' {
        lemma_unwrap_tidy(acc);
    } else if s[pos] == '*' {
    } else {
        lemma_parse_atom_tidy(s, pos);
        match parse_atom(s, pos) {
            Parsed::Done { value, next } => {
                let after = skip_stars(s, next);
                let factors = if after > next {
                    seq![star_of(value)]
                } else {
                    factors_of(value)
                };
                if pos < after <= s.len() {
                    assert(tidy_factors(factors)) by {
                        if after > next {
                            lemma_star_tidy(value);
                            assert forall|i: int| 0 <= i < factors.len() implies {
                                let f = #[trigger] factors[i];
                                !(f is Concat) && solid(f) && tidy(f)
                            } by {
                                assert(factors[i] == star_of(value));
                            }
                        } else {
                            lemma_factors_tidy(value);
                        }
                    }
                    lemma_tidy_factors_add(acc, factors);
                    lemma_parse_unary_tidy(s, after, acc + factors);
                }
            },
            _ => {},
        }
    }
}

/// An alternative that is read behind tidy branches is tidy and no literal
/// alone.
proof fn lemma_parse_alternative_tidy(s: Seq<char>, pos: int, acc: Seq<Regex>)
    requires
        0 <= pos <= s.len(),
        tidy_branches(acc),
    ensures
        parse_alternative(s, pos, acc) matches Parsed::Done { value, .. } ==> tidy(value) && solid(
            value,
        ) && !(value is Char),
    decreases s.len() - pos, 3int,
{
    lemma_parse_unary_tidy(s, pos, Seq::empty());
    match parse_unary(s, pos, Seq::empty()) {
        Parsed::Done { value, next } => {
            let branches = acc + branches_of(value);
            lemma_branches_tidy(value);
            lemma_tidy_branches_add(acc, branches_of(value));
            if pos <= next < s.len() && s[next] == '|' {
                lemma_parse_alternative_tidy(s, next + 1, branches);
            } else {
                lemma_pack_tidy(branches);
            }
        },
        _ => {},
    }
}

/// Every expression that is read from a text is tidy: its literals are no
/// operator characters, and none of its factors is the alternation without
/// branches.
pub proof fn lemma_parse_text_tidy(s: Seq<char>)
    ensures
        parse_text(s) matches Parsed::Done { value, .. } ==> tidy(value),
{
    lemma_parse_alternative_tidy(s, 0, Seq::empty());
}

/// The position that an error at index `pos` reports: that of the character
/// at `pos`, or of the last character where the text has ended.
pub open spec fn column(s: Seq<char>, pos: int) -> int {
    if pos < s.len() {
        pos + 1
    } else {
        s.len() as int
    }
}

/// `r` is what `p` describes, and on success the reader stands at `pos`.
pub open spec fn outcome_matches(r: Result<ParsingResult, SyntaxError>, p: Parsed, pos: int) -> bool {
    match p {
        Parsed::Done { value, next } => {
            &&& r matches Ok(v)
            &&& v@ == value
            &&& v.wf()
            &&& pos == next
        },
        Parsed::Failed { position, message } => {
            &&& r matches Err(e)
            &&& e.position == position
            &&& e.message@ == message
        },
    }
}

/// A reader over one text, with one character of lookahead.
pub struct Parser {
    index: usize,
    chars: Vec<char>,
}

impl Default for Parser {
    /// A reader over the empty text.
    fn default() -> (p: Parser)
        ensures
            p.text() == Seq::<char>::empty(),
            p.position() == 0,
            p.inv(),
    {
        Parser { index: 0, chars: Vec::new() }
    }
}

impl Parser {
    /// The text that is read.
    pub closed spec fn text(&self) -> Seq<char> {
        self.chars@
    }

    /// The number of characters consumed.
    pub closed spec fn position(&self) -> int {
        self.index as int
    }

    /// The reader stands inside its text or at its end.
    pub open spec fn inv(&self) -> bool {
        0 <= self.position() <= self.text().len()
    }

    /// The character under the cursor, if the text has not ended.
    fn peek(&self) -> (c: Option<char>)
        requires
            self.inv(),
        ensures
            c == if self.position() < self.text().len() {
                Some(self.text()[self.position()])
            } else {
                None::<char>
            },
    {
        if self.index < self.chars.len() {
            Some(self.chars[self.index])
        } else {
            None
        }
    }

    /// Moves past the character under the cursor; stays at the end.
    fn advance(&mut self)
        requires
            old(self).inv(),
        ensures
            final(self).inv(),
            final(self).text() == old(self).text(),
            final(self).position() == if old(self).position() < old(self).text().len() {
                old(self).position() + 1
            } else {
                old(self).position()
            },
    {
        if self.index < self.chars.len() {
            self.index += 1;
        }
    }

    /// Whether `expected` stands under the cursor.
    fn check(&self, expected: char) -> (b: bool)
        requires
            self.inv(),
        ensures
            b == (self.position() < self.text().len() && self.text()[self.position()] == expected),
    {
        match self.peek() {
            Some(next) => next == expected,
            None => false,
        }
    }

    /// Whether the text has ended.
    fn at_end(&self) -> (b: bool)
        requires
            self.inv(),
        ensures
            b == (self.position() >= self.text().len()),
    {
        self.peek().is_none()
    }

    /// The error with `message` at the cursor.
    fn report(&self, message: String) -> (e: SyntaxError)
        requires
            self.inv(),
        ensures
            e.position == column(self.text(), self.position()),
            e.message@ == message@,
    {
        let position = if self.index < self.chars.len() {
            self.index + 1
        } else {
            self.index
        };
        SyntaxError { position, message }
    }

    /// Moves past `expected`, or reports what stands in its place.
    fn consume(&mut self, expected: char) -> (r: Result<(), SyntaxError>)
        requires
            old(self).inv(),
        ensures
            final(self).inv(),
            final(self).text() == old(self).text(),
            match r {
                Ok(_) => {
                    &&& old(self).position() < old(self).text().len()
                    &&& old(self).text()[old(self).position()] == expected
                    &&& final(self).position() == old(self).position() + 1
                },
                Err(e) => {
                    &&& final(self).position() == old(self).position()
                    &&& !(old(self).position() < old(self).text().len() && old(self).text()[old(
                        self,
                    ).position()] == expected)
                    &&& e.position == column(old(self).text(), old(self).position())
                    &&& e.message@ == mismatch_message(
                        expected,
                        if old(self).position() < old(self).text().len() {
                            Some(old(self).text()[old(self).position()])
                        } else {
                            None
                        },
                    )
                },
            },
    {
        let found = self.peek();
        if found == Some(expected) {
            self.advance();
            return Ok(());
        }
        let mut message: Vec<char> = Vec::new();
        push_str(&mut message, "expected '");
        message.push(expected);
        push_str(&mut message, "', but '");
        match found {
            Some(c) => message.push(c),
            None => push_str(&mut message, "EOF"),
        }
        push_str(&mut message, "' found");
        Err(self.report(string_from_chars(&message)))
    }

    /// Reads a unary at the cursor.
    fn expect_unary(&mut self) -> (r: Result<ParsingResult, SyntaxError>)
        requires
            old(self).inv(),
        ensures
            final(self).inv(),
            final(self).text() == old(self).text(),
            outcome_matches(
                r,
                parse_unary(old(self).text(), old(self).position(), Seq::empty()),
                final(self).position(),
            ),
            r is Ok ==> old(self).position() <= final(self).position(),
            r is Ok ==> final(self).stands_at_end_of_unary(),
        decreases old(self).text().len() - old(self).position(), 2int,
    {
        let ghost s = self.text();
        let ghost start = self.position();
        let mut factors: Vec<ConcatArg> = Vec::new();
        assert(concat_args_view(factors@) =~= Seq::empty());
        loop
            invariant
                s == old(self).text(),
                start == old(self).position(),
                self.inv(),
                self.text() == s,
                start <= self.position(),
                concat_args_wf(factors@),
                parse_unary(s, start, Seq::empty()) == parse_unary(
                    s,
                    self.position(),
                    concat_args_view(factors@),
                ),
            ensures
                self.stands_at_end_of_unary(),
                parse_unary(s, start, Seq::empty()) == (Parsed::Done {
                    value: unwrap_single(Regex::Concat(concat_args_view(factors@))),
                    next: self.position(),
                }),
            decreases s.len() - self.position(),
        {
            let ghost pos = self.position();
            let c = match self.peek() {
                None => {
                    break ;
                },
                Some(c) => c,
            };
            if c == ')' || c == '|' {
                break ;
            }
            if c == '*' {
                return Err(self.report("expected something before `*`".to_string()));
            }
            let atom = if c == '(' {
                self.advance();
                let inner = self.expect_alternative()?;
                self.consume(')')?;
                inner
            } else {
                self.advance();
                ParsingResult::literal(c)
            };
            let ghost next = self.position();
            assert(parse_atom(s, pos) == (Parsed::Done { value: atom@, next }));
            let mut starred = false;
            while self.check('*')
                invariant
                    self.inv(),
                    self.text() == s,
                    next <= self.position(),
                    next <= s.len(),
                    starred == (self.position() > next),
                    skip_stars(s, next) == skip_stars(s, self.position()),
                decreases s.len() - self.position(),
            {
                self.advance();
                starred = true;
            }
            let ghost acc = concat_args_view(factors@);
            if starred {
                push_factor(&mut factors, ConcatArg::Star(Box::new(atom.into_star_body())));
            } else {
                append_factors(&mut factors, atom.into_factors());
            }
            proof {
                let after = self.position();
                assert(skip_stars(s, next) == after);
                let added = if after > next {
                    seq![star_of(atom@)]
                } else {
                    factors_of(atom@)
                };
                assert(concat_args_view(factors@) =~= acc + added);
                assert(parse_unary(s, pos, acc) == parse_unary(s, after, acc + added));
            }
        }
        Ok(ParsingResult::from_factors(factors))
    }

    /// Reads an alternative at the cursor.
    fn expect_alternative(&mut self) -> (r: Result<ParsingResult, SyntaxError>)
        requires
            old(self).inv(),
        ensures
            final(self).inv(),
            final(self).text() == old(self).text(),
            outcome_matches(
                r,
                parse_alternative(old(self).text(), old(self).position(), Seq::empty()),
                final(self).position(),
            ),
            r is Ok ==> old(self).position() <= final(self).position(),
            r is Ok ==> final(self).stands_at_end_of_alternative(),
        decreases old(self).text().len() - old(self).position(), 3int,
    {
        let ghost s = self.text();
        let ghost start = self.position();
        let mut branches: Vec<AltArg> = Vec::new();
        assert(alt_args_view(branches@) =~= Seq::empty());
        loop
            invariant_except_break
                parse_alternative(s, start, Seq::empty()) == parse_alternative(
                    s,
                    self.position(),
                    alt_args_view(branches@),
                ),
            invariant
                s == old(self).text(),
                start == old(self).position(),
                self.inv(),
                self.text() == s,
                start <= self.position(),
                alt_args_wf(branches@),
            ensures
                self.stands_at_end_of_alternative(),
                parse_alternative(s, start, Seq::empty()) == (Parsed::Done {
                    value: pack_branches(alt_args_view(branches@)),
                    next: self.position(),
                }),
            decreases s.len() - self.position(),
        {
            let unary = self.expect_unary()?;
            append_branches(&mut branches, unary.into_branches());
            if !self.check('|') {
                break ;
            }
            self.advance();
        }
        Ok(ParsingResult::from_branches(branches))
    }

    /// The cursor stands where a unary ends: at the end of the text, at `)`
    /// or at `|`.
    pub open spec fn stands_at_end_of_unary(&self) -> bool {
        ||| self.position() >= self.text().len()
        ||| self.text()[self.position()] == ')'
        ||| self.text()[self.position()] == '|'
    }

    /// The cursor stands where an alternative ends: at the end of the text
    /// or at `)`.
    pub open spec fn stands_at_end_of_alternative(&self) -> bool {
        ||| self.position() >= self.text().len()
        ||| self.text()[self.position()] == ')'
    }

    /// Reads `regex` as an expression. On success the result is the tree of
    /// the text, with every flag computed; on failure the error names the
    /// offending position and what was expected there.
    pub fn parse(&mut self, regex: &str) -> (r: Result<ParsingResult, SyntaxError>)
        ensures
            final(self).inv(),
            final(self).text() == regex@,
            outcome_matches(r, parse_text(regex@), regex@.len() as int),
            r is Ok ==> final(self).position() == regex@.len(),
            r matches Ok(tree) ==> plain(tree@),
    {
        proof {
            lemma_parse_text_tidy(regex@);
            match parse_text(regex@) {
                Parsed::Done { value, .. } => {
                    lemma_tidy_plain(value);
                },
                _ => {},
            }
        }
        self.index = 0;
        self.chars = chars_of(regex);
        let parsed = self.expect_alternative()?;
        if !self.at_end() {
            return Err(self.report("expected 'EOF', but ')' found".to_string()));
        }
        Ok(parsed)
    }
}

} // verus!
