use regex_canon::parser::{AltArg, ConcatArg, Parser, ParsingResult, StarArg};
use regex_canon::ssnf::ssnf;

/// The factors of a word: one literal for each of its characters.
fn word(text: &str) -> Vec<ConcatArg> {
    text.chars().map(ConcatArg::Char).collect()
}

/// The concatenation of the words, none of which is empty.
fn words(texts: &[&str]) -> StarArg {
    StarArg::Concat { args: texts.iter().flat_map(|text| word(text)).collect(), accepts_empty: false }
}

fn star(text: &str) -> ConcatArg {
    ConcatArg::Star(Box::new(words(&[text])))
}

fn branch(text: &str) -> AltArg {
    AltArg::Concat { args: word(text), accepts_empty: false }
}

#[test]
fn rewrite_basic_const_test() {
    let expr = "test_regex";
    let mut parser = Parser::default();

    let res = parser.parse(expr).unwrap();
    let expected = ParsingResult::Concat { args: word("test_regex"), accepts_empty: false };
    assert_eq!(expected, res);
}

#[test]
fn rewrite_basic_alternative_test() {
    let expr = "abc|cde";
    let mut parser = Parser::default();

    let res = parser.parse(expr).unwrap();

    let expected =
        ParsingResult::Alt { args: vec![branch("abc"), branch("cde")], accepts_empty: false };
    assert_eq!(expected, res);
}

#[test]
fn rewrite_basic_concat_test() {
    let expr = "abc(cde)efg";
    let mut parser = Parser::default();

    let res = parser.parse(expr).unwrap();
    let expected = ParsingResult::Concat {
        args: [word("abc"), word("cde"), word("efg")].concat(),
        accepts_empty: false,
    };
    assert_eq!(expected.to_string(), res.to_string());
    assert_eq!(expected, res);
}

#[test]
fn rewrite_basic_star_test() {
    let expr = "(abc)*";
    let mut parser = Parser::default();

    let res = parser.parse(expr).unwrap();
    let expected = ParsingResult::Star(Box::new(words(&["abc"])));

    assert_eq!(expected, res);
}

#[test]
fn rewrite_concat_with_star() {
    let expr = "(abc)*(cde)";
    let mut parser = Parser::default();

    let res = parser.parse(expr).unwrap();
    let expected = ParsingResult::Concat {
        args: [vec![star("abc")], word("cde")].concat(),
        accepts_empty: false,
    };
    assert_eq!(expected, res);
}

#[test]
fn rewrite_star_concat() {
    let expr = "(ab)*(ed)*";
    let mut parser = Parser::default();

    let res = parser.parse(expr).unwrap();
    let expected = ParsingResult::Concat { args: vec![star("ab"), star("ed")], accepts_empty: true };
    assert_eq!(expected, res);
}

#[test]
fn rewrite_double_star() {
    let expr = "(abc)**";
    let mut parser = Parser::default();
    let res = parser.parse(expr).unwrap();

    let expected = ParsingResult::Star(Box::new(words(&["abc"])));

    assert_eq!(expected, res)
}

#[test]
fn rewrite_non_greedy_star() {
    let expr = "(cd)qa*";
    let mut parser = Parser::default();
    let res = parser.parse(expr).unwrap();

    let expected = ParsingResult::Concat {
        args: [word("cd"), word("q"), vec![star("a")]].concat(),
        accepts_empty: false,
    };

    assert_eq!(expected, res)
}

#[test]
fn rewrite_concat_double_star() {
    let expr = "(abc)*(cde)**";
    let mut parser = Parser::default();
    let res = parser.parse(expr).unwrap();

    let expected =
        ParsingResult::Concat { args: vec![star("abc"), star("cde")], accepts_empty: true };

    assert_eq!(expected, res);
}

#[test]
fn rewrite_trailing_concat_in_unary() {
    let expr = "a*abc(q)r";
    let mut parser = Parser::default();
    let res = parser.parse(expr).unwrap();

    let expected = ParsingResult::Concat {
        args: [vec![star("a")], word("abc"), word("q"), word("r")].concat(),
        accepts_empty: false,
    };

    assert_eq!(expected, res);
}

#[test]
fn rewrite_the_test() {
    let expr = "(abc)*((cde)|(edf))**|(qrp)";
    let mut parser = Parser::default();

    let res = parser.parse(expr).unwrap();
    let expected = ParsingResult::Alt {
        args: vec![
            AltArg::Concat {
                args: vec![
                    star("abc"),
                    ConcatArg::Star(Box::new(StarArg::Alt {
                        args: vec![branch("cde"), branch("edf")],
                        accepts_empty: false,
                    })),
                ],
                accepts_empty: true,
            },
            branch("qrp"),
        ],
        accepts_empty: true,
    };

    assert_eq!(expected, res);
}

#[test]
fn parsing_basic_const_test() {
    let expr = "test_regex";
    let mut parser = Parser::default();

    let res = parser.parse(expr).unwrap();
    let expected = ParsingResult::Concat { args: word(expr), accepts_empty: false };
    assert_eq!("test_regex", res.to_string());
    assert_eq!(expected, res);
}

#[test]
fn parsing_basic_alternative_test() {
    let expr = "abc|cde";
    let mut parser = Parser::default();

    let res = parser.parse(expr).unwrap();
    let expected =
        ParsingResult::Alt { args: vec![branch("abc"), branch("cde")], accepts_empty: false };
    assert_eq!("(abc|cde)", res.to_string());
    assert_eq!(expected, res);
}

#[test]
fn parsing_basic_concat_test() {
    let expr = "abc(cde)efg";
    let mut parser = Parser::default();

    let res = parser.parse(expr).unwrap();
    let expected = ParsingResult::Concat {
        args: [word("abc"), word("cde"), word("efg")].concat(),
        accepts_empty: false,
    };
    assert_eq!("abccdeefg", res.to_string());
    assert_eq!(expected, res);
}

#[test]
fn parsing_basic_star_test() {
    let expr = "(abc)*";
    let mut parser = Parser::default();

    let res = parser.parse(expr).unwrap();
    let expected = ParsingResult::Star(Box::new(words(&["abc"])));
    assert_eq!("(abc)*", res.to_string());
    assert_eq!(expected, res);
}

#[test]
fn parsing_concat_with_star() {
    let expr = "(abc)*(cde)";
    let mut parser = Parser::default();

    let res = parser.parse(expr).unwrap();
    let expected = ParsingResult::Concat {
        args: [vec![star("abc")], word("cde")].concat(),
        accepts_empty: false,
    };
    assert_eq!("(abc)*cde", res.to_string());
    assert_eq!(expected, res);
}

#[test]
fn parsing_star_concat() {
    let expr = "(ab)*(ed)*";
    let mut parser = Parser::default();

    let res = parser.parse(expr).unwrap();
    let expected = ParsingResult::Concat { args: vec![star("ab"), star("ed")], accepts_empty: true };
    assert_eq!("(ab)*(ed)*", res.to_string());
    assert_eq!(expected, res);
}

#[test]
fn parsing_double_star() {
    let expr = "(abc)**";
    let mut parser = Parser::default();
    let res = parser.parse(expr).unwrap();

    let expected = ParsingResult::Star(Box::new(words(&["abc"])));

    assert_eq!("(abc)*", res.to_string());
    assert_eq!(expected, res)
}

#[test]
fn parsing_non_greedy_star() {
    let expr = "(cd)qa*";
    let mut parser = Parser::default();
    let res = parser.parse(expr).unwrap();

    let expected = ParsingResult::Concat {
        args: [word("cd"), word("q"), vec![star("a")]].concat(),
        accepts_empty: false,
    };

    assert_eq!("cdq(a)*", res.to_string());
    assert_eq!(expected, res)
}

#[test]
fn parsing_concat_double_star() {
    let expr = "(abc)*(cde)**";
    let mut parser = Parser::default();
    let res = parser.parse(expr).unwrap();

    let expected =
        ParsingResult::Concat { args: vec![star("abc"), star("cde")], accepts_empty: true };

    assert_eq!("(abc)*(cde)*", res.to_string());
    assert_eq!(expected, res);
}

#[test]
fn parsing_the_test() {
    let expr = "(abc)*((cde)|(edf))**|(qrp)";
    let mut parser = Parser::default();

    let res = parser.parse(expr).unwrap();
    let expected = ParsingResult::Alt {
        args: vec![
            AltArg::Concat {
                args: vec![
                    star("abc"),
                    ConcatArg::Star(Box::new(StarArg::Alt {
                        args: vec![branch("cde"), branch("edf")],
                        accepts_empty: false,
                    })),
                ],
                accepts_empty: true,
            },
            branch("qrp"),
        ],
        accepts_empty: true,
    };
    assert_eq!("((abc)*(cde|edf)*|qrp)", res.to_string());
    assert_eq!(expected, res);
}

#[test]
fn parsing_star_simplification() {
    let expr = "((abc)*|(bcd)*)**a***(((abc)*)**)***";
    let mut parser = Parser::default();

    let res = ssnf(parser.parse(expr).unwrap());
    let expected = ParsingResult::Concat {
        args: vec![
            ConcatArg::Star(Box::new(StarArg::Alt {
                args: vec![branch("abc"), branch("bcd")],
                accepts_empty: false,
            })),
            star("a"),
            star("abc"),
        ],
        accepts_empty: true,
    };
    assert_eq!("(abc|bcd)*(a)*(abc)*", res.to_string());
    assert_eq!(expected, res);
}
