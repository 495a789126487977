use regex_canon::aci::simplify;
use regex_canon::derivative::take_derivative;
use regex_canon::parser::{AltArg, ConcatArg, Parser, ParsingResult, StarArg};
use regex_canon::ssnf::ssnf;

#[test]
fn constant() {
    let expr = "abc";
    let mut parser = Parser::default();

    let res = simplify(ssnf(parser.parse(expr).unwrap()));
    let derivative = take_derivative(res, 'a');
    let expected = ParsingResult::Concat {
        args: vec![ConcatArg::Char('b'), ConcatArg::Char('c')],
        accepts_empty: false,
    };
    assert!(derivative.is_some());
    assert_eq!(expected, derivative.unwrap());
}

#[test]
fn empty_concat() {
    let expr = "a";
    let mut parser = Parser::default();

    let res = simplify(ssnf(parser.parse(expr).unwrap()));
    let derivative = take_derivative(res, 'a');
    let expected = ParsingResult::Concat { args: vec![], accepts_empty: true };
    assert!(derivative.is_some());
    assert_eq!(expected, derivative.unwrap());
}

#[test]
fn alternative() {
    let expr = "(a|b|ab)";
    let mut parser = Parser::default();

    let res = simplify(ssnf(parser.parse(expr).unwrap()));
    let derivative = take_derivative(res, 'a');
    let expected = ParsingResult::Alt {
        args: vec![
            AltArg::Concat { args: vec![], accepts_empty: true },
            AltArg::Concat { args: vec![ConcatArg::Char('b')], accepts_empty: false },
        ],
        accepts_empty: true,
    };
    assert!(derivative.is_some());
    assert_eq!(expected, derivative.unwrap());
}

#[test]
fn singular_alternative() {
    let expr = "(a|b)";
    let mut parser = Parser::default();

    let res = simplify(ssnf(parser.parse(expr).unwrap()));
    let derivative = take_derivative(res, 'a');
    let expected = ParsingResult::Concat { args: vec![], accepts_empty: true };
    assert!(derivative.is_some());
    assert_eq!(expected, derivative.unwrap());
}

#[test]
fn dead_alternative() {
    let expr = "(a|b)";
    let mut parser = Parser::default();

    let res = simplify(ssnf(parser.parse(expr).unwrap()));
    let derivative = take_derivative(res, 'c');
    assert!(derivative.is_none());
}

#[test]
fn concat_prefix_accepts_empty() {
    let expr = "a*ab";
    let mut parser = Parser::default();

    let res = simplify(ssnf(parser.parse(expr).unwrap()));
    let derivative = take_derivative(res, 'a');
    assert!(derivative.is_some());
    let expected = ParsingResult::Alt {
        args: vec![
            AltArg::Concat {
                args: vec![
                    ConcatArg::Star(Box::new(StarArg::Concat {
                        args: vec![ConcatArg::Char('a')],
                        accepts_empty: false,
                    })),
                    ConcatArg::Char('a'),
                    ConcatArg::Char('b'),
                ],
                accepts_empty: false,
            },
            AltArg::Concat { args: vec![ConcatArg::Char('b')], accepts_empty: false },
        ],
        accepts_empty: false,
    };
    assert_eq!(expected, derivative.unwrap());
}

#[test]
fn concat_accepts_empty() {
    let expr = "a*a*";
    let mut parser = Parser::default();

    let res = simplify(ssnf(parser.parse(expr).unwrap()));
    let derivative = take_derivative(res, 'a');
    assert!(derivative.is_some());
    let expected = ParsingResult::Alt {
        args: vec![
            AltArg::Concat {
                args: vec![
                    ConcatArg::Star(Box::new(StarArg::Concat {
                        args: vec![ConcatArg::Char('a')],
                        accepts_empty: false,
                    })),
                    ConcatArg::Star(Box::new(StarArg::Concat {
                        args: vec![ConcatArg::Char('a')],
                        accepts_empty: false,
                    })),
                ],
                accepts_empty: true,
            },
            AltArg::Star(Box::new(StarArg::Concat {
                args: vec![ConcatArg::Char('a')],
                accepts_empty: false,
            })),
        ],
        accepts_empty: true,
    };
    assert_eq!(expected, derivative.unwrap());
}
