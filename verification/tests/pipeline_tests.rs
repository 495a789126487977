use regex_canon::aci::simplify;
use regex_canon::derivative::take_derivative;
use regex_canon::order::{compare_texts, Place};
use regex_canon::parser::{AltArg, ConcatArg, Parser, ParsingResult, StarArg, SyntaxError};
use regex_canon::ssnf::ssnf;

fn parse(text: &str) -> ParsingResult {
    Parser::default().parse(text).unwrap()
}

fn parse_error(text: &str) -> SyntaxError {
    Parser::default().parse(text).unwrap_err()
}

fn canonical(text: &str) -> ParsingResult {
    simplify(ssnf(parse(text)))
}

fn canonical_text(text: &str) -> String {
    canonical(text).to_string()
}

fn literal(c: char) -> AltArg {
    AltArg::Concat { args: vec![ConcatArg::Char(c)], accepts_empty: false }
}

#[test]
fn canonical_form_is_a_fixed_point() {
    for text in [
        "",
        "a",
        "a|a",
        "c|b|a",
        "(aqb|arb|ab)",
        "(a)*r(c|d)|a*q(d|c)",
        "((bcd)*(abc)*)**a***(((abc)*)**)***",
        "ab|abab",
        "a(b|c)d|abd",
        "(a*|b)*c|(b|a)*c",
        "()*",
        "x(y|z)|x(z|y)w|x",
    ] {
        let once = canonical(text);
        let twice = simplify(canonical(text));
        assert_eq!(once.to_string(), twice.to_string());
        assert_eq!(once, twice);
    }
}

#[test]
fn alternation_is_commutative() {
    let expected = ParsingResult::Alt {
        args: vec![literal('a'), literal('b'), literal('c')],
        accepts_empty: false,
    };
    assert_eq!(expected, simplify(parse("a|b|c")));
    assert_eq!(expected, simplify(parse("c|b|a")));
    assert_eq!(expected, simplify(parse("b|a|c")));
    assert_eq!("(a|b|c)", simplify(parse("c|b|a")).to_string());
}

#[test]
fn alternation_is_idempotent() {
    assert_eq!(simplify(parse("a")), simplify(parse("a|a")));
    assert_eq!("a", simplify(parse("a|a")).to_string());
}

#[test]
fn nullability_of_parsed_expressions() {
    assert!(parse("").accepts_empty());
    assert!(!parse("a").accepts_empty());
    assert!(parse("a*").accepts_empty());
    assert!(parse("(ab)*").accepts_empty());
    assert!(!parse("ab").accepts_empty());
    assert!(parse("a*|b").accepts_empty());
    assert!(!parse("a*b").accepts_empty());
}

#[test]
fn star_of_star_collapses() {
    assert_eq!(simplify(parse("a*")), simplify(parse("(a*)*")));
    assert_eq!("(a)*", simplify(parse("(a*)*")).to_string());
}

#[test]
fn repeated_stars_parse_as_one() {
    let expected = ParsingResult::Star(Box::new(StarArg::Concat {
        args: vec![ConcatArg::Char('a')],
        accepts_empty: false,
    }));
    assert_eq!(expected, parse("a*"));
    assert_eq!(expected, parse("a**"));
    assert_eq!(expected, parse("a****"));
}

#[test]
fn common_prefix_is_factored() {
    assert_eq!("a(q|r)", simplify(parse("aq|ar")).to_string());
    let expected = ParsingResult::Concat {
        args: vec![
            ConcatArg::Char('a'),
            ConcatArg::Alt { args: vec![literal('q'), literal('r')], accepts_empty: false },
        ],
        accepts_empty: false,
    };
    assert_eq!(expected, simplify(parse("aq|ar")));
}

#[test]
fn common_suffix_is_factored() {
    assert_eq!("(q|r)a", simplify(parse("ra|qa")).to_string());
    assert_eq!("(|a)b", simplify(parse("ab|b")).to_string());
}

#[test]
fn prefix_is_drawn_before_suffix() {
    assert_eq!("ab(|ab)", simplify(parse("ab|abab")).to_string());
    assert_eq!("a(|a)", simplify(parse("aa|a")).to_string());
}

#[test]
fn middles_are_made_unique_again() {
    assert_eq!("a(b|c)d", simplify(parse("a(b|c)d|abd")).to_string());
}

#[test]
fn star_branch_blocks_factoring() {
    assert_eq!("((a)*|ab|ac)", simplify(parse("ab|ac|a*")).to_string());
}

#[test]
fn derivative_base_cases() {
    assert_eq!("bc", take_derivative(parse("abc"), 'a').unwrap().to_string());
    let empty = take_derivative(parse("a"), 'a').unwrap();
    assert_eq!("", empty.to_string());
    assert!(empty.accepts_empty());
    assert_eq!(ParsingResult::Concat { args: vec![], accepts_empty: true }, empty);
    assert_eq!(None, take_derivative(parse("a"), 'b'));
    assert_eq!(None, take_derivative(parse(""), 'a'));
}

#[test]
fn derivative_through_alternation() {
    let derivative = take_derivative(parse("a|b|ab"), 'a').unwrap();
    assert_eq!("(|b)", derivative.to_string());
    assert!(derivative.accepts_empty());
}

#[test]
fn derivative_skips_nullable_factor_without_derivative() {
    let derivative = take_derivative(parse("b*a"), 'a').unwrap();
    assert_eq!(ParsingResult::Concat { args: vec![], accepts_empty: true }, derivative);
    assert_eq!(None, take_derivative(parse("b*a"), 'c'));
    assert_eq!("(b)*a", take_derivative(parse("b*a"), 'b').unwrap().to_string());
}

#[test]
fn derivative_stops_behind_first_factor_that_is_not_nullable() {
    assert_eq!(None, take_derivative(parse("ab"), 'b'));
    assert_eq!(None, take_derivative(parse("a*bc"), 'c'));
    assert_eq!("c", take_derivative(parse("a*bc"), 'b').unwrap().to_string());
}

#[test]
fn derivative_of_star_keeps_the_star() {
    assert_eq!("b(ab)*", take_derivative(parse("(ab)*"), 'a').unwrap().to_string());
    assert_eq!("(a)*", take_derivative(parse("a*"), 'a').unwrap().to_string());
    assert_eq!("(b)*(a|(b)*)*", take_derivative(parse("(a|b*)*"), 'b').unwrap().to_string());
    assert_eq!(None, take_derivative(parse("(ab)*"), 'b'));
}

#[test]
fn derivative_does_not_trust_stale_flags() {
    let stale = ParsingResult::Concat {
        args: vec![
            ConcatArg::Alt { args: vec![literal('a')], accepts_empty: true },
            ConcatArg::Char('b'),
        ],
        accepts_empty: true,
    };
    assert_eq!(None, take_derivative(stale, 'b'));
}

#[test]
fn end_to_end_duplicate_branches() {
    assert_eq!("a", canonical_text("(a|a)"));
}

#[test]
fn end_to_end_shared_prefix_and_suffix() {
    assert_eq!("a(|q|r)b", canonical_text("(aqb|arb|ab)"));
}

#[test]
fn star_normal_form_of_nullable_body() {
    assert_eq!("(a|b)*", ssnf(parse("(a*b*)*")).to_string());
    assert_eq!("(a|b)*", ssnf(parse("(a*|b)*")).to_string());
    assert_eq!("(a(b)*)*", ssnf(parse("(ab*)*")).to_string());
    assert_eq!("(a|b|c)*", ssnf(parse("((a|b*)*c*)*")).to_string());
}

#[test]
fn star_normal_form_of_empty_body() {
    let expected =
        ParsingResult::Star(Box::new(StarArg::Alt { args: vec![], accepts_empty: false }));
    assert_eq!(expected, ssnf(parse("()*")));
    assert_eq!("()*", ssnf(parse("()*")).to_string());
    assert_eq!(expected, canonical("()*"));
}

#[test]
fn star_normal_form_recomputes_flags() {
    let stale = ParsingResult::Star(Box::new(StarArg::Concat {
        args: vec![ConcatArg::Char('a')],
        accepts_empty: true,
    }));
    let expected = ParsingResult::Star(Box::new(StarArg::Concat {
        args: vec![ConcatArg::Char('a')],
        accepts_empty: false,
    }));
    assert_eq!(expected, ssnf(stale));
}

#[test]
fn empty_group_adds_no_factor() {
    assert_eq!(parse("ab"), parse("a()b"));
    assert_eq!(ParsingResult::Concat { args: vec![], accepts_empty: true }, parse("()"));
}

#[test]
fn empty_branch_is_the_empty_string() {
    let expected = ParsingResult::Alt {
        args: vec![literal('a'), AltArg::Concat { args: vec![], accepts_empty: true }],
        accepts_empty: true,
    };
    assert_eq!(expected, parse("a|"));
    assert_eq!("(|a)", simplify(parse("a|")).to_string());
}

#[test]
fn star_binds_to_the_preceding_atom() {
    let expected = ParsingResult::Concat {
        args: vec![
            ConcatArg::Char('a'),
            ConcatArg::Star(Box::new(StarArg::Concat {
                args: vec![ConcatArg::Char('b')],
                accepts_empty: false,
            })),
        ],
        accepts_empty: false,
    };
    assert_eq!(expected, parse("ab*"));
}

#[test]
fn dangling_star_is_rejected() {
    let message = "expected something before `*`".to_string();
    assert_eq!(SyntaxError { position: 1, message: message.clone() }, parse_error("*"));
    assert_eq!(SyntaxError { position: 1, message: message.clone() }, parse_error("*a"));
    assert_eq!(SyntaxError { position: 3, message: message.clone() }, parse_error("a|*b"));
    assert_eq!(SyntaxError { position: 2, message }, parse_error("(*)"));
}

#[test]
fn open_group_is_rejected() {
    let message = "expected ')', but 'EOF' found".to_string();
    assert_eq!(SyntaxError { position: 1, message: message.clone() }, parse_error("("));
    assert_eq!(SyntaxError { position: 2, message: message.clone() }, parse_error("(a"));
    assert_eq!(SyntaxError { position: 5, message }, parse_error("a(b|c"));
}

#[test]
fn unbalanced_close_is_rejected() {
    let message = "expected 'EOF', but ')' found".to_string();
    assert_eq!(SyntaxError { position: 1, message: message.clone() }, parse_error(")"));
    assert_eq!(SyntaxError { position: 2, message: message.clone() }, parse_error("a)b"));
    assert_eq!(SyntaxError { position: 4, message }, parse_error("(a))"));
}

#[test]
fn texts_are_ordered_by_code_point() {
    let text = |s: &str| s.chars().collect::<Vec<char>>();
    assert_eq!(Place::Before, compare_texts(&text(""), &text("a")));
    assert_eq!(Place::Before, compare_texts(&text("ab"), &text("b")));
    assert_eq!(Place::Before, compare_texts(&text("a"), &text("ab")));
    assert_eq!(Place::Same, compare_texts(&text("(a)*"), &text("(a)*")));
    assert_eq!(Place::After, compare_texts(&text("q"), &text("(")));
    assert_eq!(Place::After, compare_texts(&text("é"), &text("z")));
}

#[test]
fn text_of_each_kind_of_node() {
    let body = StarArg::Alt { args: vec![literal('a'), literal('b')], accepts_empty: false };
    assert_eq!("a|b", body.to_string());
    assert_eq!("(a|b)*", AltArg::Star(Box::new(body.clone())).to_string());
    assert_eq!("(a|b)*", ConcatArg::Star(Box::new(body.clone())).to_string());
    assert_eq!("(a|b)*", ParsingResult::Star(Box::new(body)).to_string());
    assert_eq!("a", literal('a').to_string());
    assert_eq!("(a|b)", parse("a|b").to_string());
    assert_eq!("(a|b)c", parse("(a|b)c").to_string());
}

#[test]
fn conversions_between_kinds_of_node() {
    let branch = literal('a');
    assert_eq!(parse("a"), ParsingResult::from(branch.clone()));
    assert_eq!(parse("a"), ParsingResult::from(ConcatArg::Char('a')));
    assert_eq!(vec![branch.clone()], parse("a").into_branches());
    assert_eq!(vec![ConcatArg::Char('a'), ConcatArg::Char('b')], parse("ab").into_factors());
    assert_eq!(parse("a*"), ParsingResult::Star(Box::new(parse("a*").into_star_body())));
    assert_eq!(parse("a*"), ParsingResult::Star(Box::new(parse("a").into_star_body())));
    assert_eq!(branch, branch.clone());
}

#[test]
fn empty_alternation_among_factors_defers_factoring() {
    let branch = |args| AltArg::Concat { args, accepts_empty: false };
    let tree = ParsingResult::Alt {
        args: vec![
            branch(vec![
                ConcatArg::Char('x'),
                ConcatArg::Alt { args: vec![], accepts_empty: false },
            ]),
            branch(vec![ConcatArg::Char('x'), ConcatArg::Char('f'), ConcatArg::Char('g')]),
            branch(vec![ConcatArg::Char('x'), ConcatArg::Char('f'), ConcatArg::Char('h')]),
        ],
        accepts_empty: false,
    };
    let once = simplify(tree);
    assert_eq!("x(fg|fh)", once.to_string());
    assert_eq!("xf(g|h)", simplify(once).to_string());
}

#[test]
fn operator_literal_defers_factoring() {
    let star = || {
        ConcatArg::Star(Box::new(StarArg::Concat {
            args: vec![
                ConcatArg::Star(Box::new(StarArg::Concat {
                    args: vec![ConcatArg::Char('!')],
                    accepts_empty: false,
                })),
                ConcatArg::Char('q'),
            ],
            accepts_empty: false,
        }))
    };
    let branch = |args| AltArg::Concat { args, accepts_empty: false };
    let spelled = branch("((!)*q)*b".chars().map(ConcatArg::Char).collect());
    let starred = branch(vec![star(), ConcatArg::Char('c')]);
    let tree = ParsingResult::Alt {
        args: vec![
            branch(vec![
                ConcatArg::Char('x'),
                ConcatArg::Alt { args: vec![spelled, starred], accepts_empty: false },
            ]),
            branch(vec![ConcatArg::Char('x'), star(), ConcatArg::Char('b')]),
        ],
        accepts_empty: false,
    };
    let once = simplify(tree);
    assert_eq!("x(((!)*q)*b|((!)*q)*c)", once.to_string());
    assert_eq!("x((!)*q)*(b|c)", simplify(once).to_string());
}

#[test]
fn parsed_trees_are_plain() {
    for text in ["", "a", "a|b*", "(a|b)*c", "()*", "((a))|"] {
        assert!(parse(text).is_plain());
        assert!(canonical(text).is_plain());
    }
    assert!(take_derivative(canonical("(ab|a)*b"), 'a').unwrap().is_plain());
}

#[test]
fn operator_literals_and_empty_factors_are_not_plain() {
    assert!(!ParsingResult::Concat { args: vec![ConcatArg::Char('(')], accepts_empty: false }
        .is_plain());
    assert!(!ParsingResult::Concat { args: vec![ConcatArg::Char('*')], accepts_empty: false }
        .is_plain());
    assert!(!ParsingResult::Star(Box::new(StarArg::Concat {
        args: vec![ConcatArg::Char('|')],
        accepts_empty: false,
    }))
    .is_plain());
    assert!(!ParsingResult::Alt { args: vec![literal(')')], accepts_empty: false }.is_plain());
    assert!(!ParsingResult::Concat {
        args: vec![ConcatArg::Char('a'), ConcatArg::Alt { args: vec![], accepts_empty: false }],
        accepts_empty: false,
    }
    .is_plain());
    assert!(ParsingResult::Alt { args: vec![], accepts_empty: false }.is_plain());
    assert!(ParsingResult::Star(Box::new(StarArg::Alt { args: vec![], accepts_empty: false }))
        .is_plain());
}

/// Whether the expression accepts the word, by taking derivatives.
fn accepts(tree: &ParsingResult, word: &str) -> bool {
    let mut state = Some(tree.rebuild());
    for symbol in word.chars() {
        state = match state {
            Some(tree) => take_derivative(tree, symbol).map(|d| simplify(ssnf(d))),
            None => None,
        };
    }
    match state {
        Some(tree) => tree.accepts_empty(),
        None => false,
    }
}

#[test]
fn derivatives_decide_membership() {
    let tree = canonical("(ab|a)*b");
    for word in ["b", "ab", "abb", "aab", "abab", "aaab", "abaab"] {
        assert!(accepts(&tree, word), "{}", word);
    }
    for word in ["", "a", "ba", "bb", "abba", "c"] {
        assert!(!accepts(&tree, word), "{}", word);
    }
}

#[test]
fn passes_keep_the_language() {
    let words = ["", "a", "b", "ab", "ba", "aa", "bb", "aab", "abab", "abba", "bab", "c"];
    for text in ["(a*b*)*", "(a|b*)*a", "ab|ab*|a(b|a)", "(ab)*|a(ba)*b", "((a|)b)*", "a**b|ab"] {
        let raw = parse(text);
        let normal = ssnf(parse(text));
        let canonical = simplify(ssnf(parse(text)));
        for word in words {
            let expected = accepts(&raw, word);
            assert_eq!(expected, accepts(&normal, word), "{} {}", text, word);
            assert_eq!(expected, accepts(&canonical, word), "{} {}", text, word);
        }
    }
}

#[test]
fn equal_languages_meet_in_one_canonical_form() {
    assert_eq!(canonical_text("a|b"), canonical_text("b|a|b"));
    assert_eq!(canonical_text("(a*b*)*"), canonical_text("(b|a)*"));
    assert_eq!(canonical_text("x(a|b)y"), canonical_text("xby|xay"));
}
