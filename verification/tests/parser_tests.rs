use regex_canon::aci::simplify;
use regex_canon::parser::{AltArg, ConcatArg, Parser, ParsingResult, StarArg};
use regex_canon::ssnf::ssnf;

#[test]
fn empty() {
    let expr = "";
    let mut parser = Parser::default();

    let res = simplify(ssnf(parser.parse(expr).unwrap()));
    let expected = ParsingResult::Concat { args: vec![], accepts_empty: true };
    assert_eq!(expected, res);
}

#[test]
fn parser_basic_const_test() {
    let expr = "abc";
    let mut parser = Parser::default();

    let res = simplify(ssnf(parser.parse(expr).unwrap()));
    let expected = ParsingResult::Concat {
        args: vec![ConcatArg::Char('a'), ConcatArg::Char('b'), ConcatArg::Char('c')],
        accepts_empty: false,
    };
    assert_eq!(expected, res);
}

#[test]
fn parser_basic_alternative_test() {
    let expr = "abc|cde";
    let mut parser = Parser::default();

    let res = simplify(ssnf(parser.parse(expr).unwrap()));

    let expected = ParsingResult::Alt {
        args: vec![
            AltArg::Concat {
                args: vec![ConcatArg::Char('a'), ConcatArg::Char('b'), ConcatArg::Char('c')],
                accepts_empty: false,
            },
            AltArg::Concat {
                args: vec![ConcatArg::Char('c'), ConcatArg::Char('d'), ConcatArg::Char('e')],
                accepts_empty: false,
            },
        ],
        accepts_empty: false,
    };
    assert_eq!(expected, res);
}

#[test]
fn parser_basic_concat_test() {
    let expr = "ab(cd)ef";
    let mut parser = Parser::default();

    let res = simplify(ssnf(parser.parse(expr).unwrap()));
    let expected = ParsingResult::Concat {
        args: vec![
            ConcatArg::Char('a'),
            ConcatArg::Char('b'),
            ConcatArg::Char('c'),
            ConcatArg::Char('d'),
            ConcatArg::Char('e'),
            ConcatArg::Char('f'),
        ],
        accepts_empty: false,
    };
    assert_eq!(expected, res);
}

#[test]
fn parser_basic_star_test() {
    let expr = "(abc)*";
    let mut parser = Parser::default();

    let res = simplify(ssnf(parser.parse(expr).unwrap()));
    let expected = ParsingResult::Star(Box::new(StarArg::Concat {
        args: vec![ConcatArg::Char('a'), ConcatArg::Char('b'), ConcatArg::Char('c')],
        accepts_empty: false,
    }));

    assert_eq!(expected, res);
}

#[test]
fn parser_concat_with_star() {
    let expr = "(abc)*(cde)";
    let mut parser = Parser::default();

    let res = simplify(ssnf(parser.parse(expr).unwrap()));
    let expected = ParsingResult::Concat {
        args: vec![
            ConcatArg::Star(Box::new(StarArg::Concat {
                args: vec![ConcatArg::Char('a'), ConcatArg::Char('b'), ConcatArg::Char('c')],
                accepts_empty: false,
            })),
            ConcatArg::Char('c'),
            ConcatArg::Char('d'),
            ConcatArg::Char('e'),
        ],
        accepts_empty: false,
    };
    assert_eq!(expected, res);
}

#[test]
fn parser_star_concat() {
    let expr = "(ab)*(ed)*";
    let mut parser = Parser::default();

    let res = simplify(ssnf(parser.parse(expr).unwrap()));
    let expected = ParsingResult::Concat {
        args: vec![
            ConcatArg::Star(Box::new(StarArg::Concat {
                args: vec![ConcatArg::Char('a'), ConcatArg::Char('b')],
                accepts_empty: false,
            })),
            ConcatArg::Star(Box::new(StarArg::Concat {
                args: vec![ConcatArg::Char('e'), ConcatArg::Char('d')],
                accepts_empty: false,
            })),
        ],
        accepts_empty: true,
    };
    assert_eq!(expected, res);
}

#[test]
fn parser_double_star() {
    let expr = "(abc)**";
    let mut parser = Parser::default();
    let res = simplify(ssnf(parser.parse(expr).unwrap()));

    let expected = ParsingResult::Star(Box::new(StarArg::Concat {
        args: vec![ConcatArg::Char('a'), ConcatArg::Char('b'), ConcatArg::Char('c')],
        accepts_empty: false,
    }));

    assert_eq!(expected, res)
}

#[test]
fn parser_non_greedy_star() {
    let expr = "(cd)qa*";
    let mut parser = Parser::default();
    let res = simplify(ssnf(parser.parse(expr).unwrap()));

    let expected = ParsingResult::Concat {
        args: vec![
            ConcatArg::Char('c'),
            ConcatArg::Char('d'),
            ConcatArg::Char('q'),
            ConcatArg::Star(Box::new(StarArg::Concat {
                args: vec![ConcatArg::Char('a')],
                accepts_empty: false,
            })),
        ],
        accepts_empty: false,
    };

    assert_eq!(expected, res)
}

#[test]
fn parser_concat_double_star() {
    let expr = "(abc)*(cde)**";
    let mut parser = Parser::default();
    let res = simplify(ssnf(parser.parse(expr).unwrap()));

    let expected = ParsingResult::Concat {
        args: vec![
            ConcatArg::Star(Box::new(StarArg::Concat {
                args: vec![ConcatArg::Char('a'), ConcatArg::Char('b'), ConcatArg::Char('c')],
                accepts_empty: false,
            })),
            ConcatArg::Star(Box::new(StarArg::Concat {
                args: vec![ConcatArg::Char('c'), ConcatArg::Char('d'), ConcatArg::Char('e')],
                accepts_empty: false,
            })),
        ],
        accepts_empty: true,
    };

    assert_eq!(expected, res);
}

#[test]
fn nested_alternative() {
    let expr = "(a|(b|(c|d)))";
    let mut parser = Parser::default();

    let res = simplify(ssnf(parser.parse(expr).unwrap()));
    let expected = ParsingResult::Alt {
        args: vec![
            AltArg::Concat { args: vec![ConcatArg::Char('a')], accepts_empty: false },
            AltArg::Concat { args: vec![ConcatArg::Char('b')], accepts_empty: false },
            AltArg::Concat { args: vec![ConcatArg::Char('c')], accepts_empty: false },
            AltArg::Concat { args: vec![ConcatArg::Char('d')], accepts_empty: false },
        ],
        accepts_empty: false,
    };
    assert_eq!(expected, res);
}

#[test]
fn parser_trailing_concat_in_unary() {
    let expr = "a*abc(q)r";
    let mut parser = Parser::default();
    let res = simplify(ssnf(parser.parse(expr).unwrap()));

    let expected = ParsingResult::Concat {
        args: vec![
            ConcatArg::Star(Box::new(StarArg::Concat {
                args: vec![ConcatArg::Char('a')],
                accepts_empty: false,
            })),
            ConcatArg::Char('a'),
            ConcatArg::Char('b'),
            ConcatArg::Char('c'),
            ConcatArg::Char('q'),
            ConcatArg::Char('r'),
        ],
        accepts_empty: false,
    };

    assert_eq!(expected, res);
}

#[test]
fn parser_the_test() {
    let expr = "(abc)*((cde)|(edf))**|(qrp)";
    let mut parser = Parser::default();

    let res = simplify(ssnf(parser.parse(expr).unwrap()));
    let expected = ParsingResult::Alt {
        args: vec![
            AltArg::Concat {
                args: vec![
                    ConcatArg::Star(Box::new(StarArg::Concat {
                        args: vec![
                            ConcatArg::Char('a'),
                            ConcatArg::Char('b'),
                            ConcatArg::Char('c'),
                        ],
                        accepts_empty: false,
                    })),
                    ConcatArg::Star(Box::new(StarArg::Alt {
                        args: vec![
                            AltArg::Concat {
                                args: vec![
                                    ConcatArg::Char('c'),
                                    ConcatArg::Char('d'),
                                    ConcatArg::Char('e'),
                                ],
                                accepts_empty: false,
                            },
                            AltArg::Concat {
                                args: vec![
                                    ConcatArg::Char('e'),
                                    ConcatArg::Char('d'),
                                    ConcatArg::Char('f'),
                                ],
                                accepts_empty: false,
                            },
                        ],
                        accepts_empty: false,
                    })),
                ],
                accepts_empty: true,
            },
            AltArg::Concat {
                args: vec![ConcatArg::Char('q'), ConcatArg::Char('r'), ConcatArg::Char('p')],
                accepts_empty: false,
            },
        ],
        accepts_empty: true,
    };

    assert_eq!(expected, res);
}

#[test]
fn ssnf_on_concat() {
    let expr = "((abc)*(cde)*)*";
    let mut parser = Parser::default();

    let res = simplify(ssnf(parser.parse(expr).unwrap()));
    let expected = ParsingResult::Star(Box::new(StarArg::Alt {
        args: vec![
            AltArg::Concat {
                args: vec![ConcatArg::Char('a'), ConcatArg::Char('b'), ConcatArg::Char('c')],
                accepts_empty: false,
            },
            AltArg::Concat {
                args: vec![ConcatArg::Char('c'), ConcatArg::Char('d'), ConcatArg::Char('e')],
                accepts_empty: false,
            },
        ],
        accepts_empty: false,
    }));
    assert_eq!(expected, res);
}

#[test]
fn basic_simplification() {
    let expr = "(aqb|arb|ab)";
    let mut parser = Parser::default();

    let res = simplify(ssnf(parser.parse(expr).unwrap()));
    let expected = ParsingResult::Concat {
        args: vec![
            ConcatArg::Char('a'),
            ConcatArg::Alt {
                args: vec![
                    AltArg::Concat { args: vec![], accepts_empty: true },
                    AltArg::Concat { args: vec![ConcatArg::Char('q')], accepts_empty: false },
                    AltArg::Concat { args: vec![ConcatArg::Char('r')], accepts_empty: false },
                ],
                accepts_empty: true,
            },
            ConcatArg::Char('b'),
        ],
        accepts_empty: false,
    };
    assert_eq!(expected, res);
}

#[test]
fn star_in_alternative() {
    let expr = "(a*|(a)*)";
    let mut parser = Parser::default();

    let res = simplify(ssnf(parser.parse(expr).unwrap()));
    let expected = ParsingResult::Star(Box::new(StarArg::Concat {
        args: vec![ConcatArg::Char('a')],
        accepts_empty: false,
    }));
    assert_eq!(expected, res);
}

#[test]
fn full_simplification() {
    let expr = "(a|a)";
    let mut parser = Parser::default();
    let res = simplify(ssnf(parser.parse(expr).unwrap()));
    let expected =
        ParsingResult::Concat { args: vec![ConcatArg::Char('a')], accepts_empty: false };
    assert_eq!(expected, res);
}

#[test]
fn hard_simplification() {
    let expr = "(a)*r(c|d)|a*q(d|c)";
    let mut parser = Parser::default();
    let res = simplify(ssnf(parser.parse(expr).unwrap()));
    let expected = ParsingResult::Concat {
        args: vec![
            ConcatArg::Star(Box::new(StarArg::Concat {
                args: vec![ConcatArg::Char('a')],
                accepts_empty: false,
            })),
            ConcatArg::Alt {
                args: vec![
                    AltArg::Concat { args: vec![ConcatArg::Char('q')], accepts_empty: false },
                    AltArg::Concat { args: vec![ConcatArg::Char('r')], accepts_empty: false },
                ],
                accepts_empty: false,
            },
            ConcatArg::Alt {
                args: vec![
                    AltArg::Concat { args: vec![ConcatArg::Char('c')], accepts_empty: false },
                    AltArg::Concat { args: vec![ConcatArg::Char('d')], accepts_empty: false },
                ],
                accepts_empty: false,
            },
        ],
        accepts_empty: false,
    };
    assert_eq!(expected, res);
}

#[test]
fn parser_star_simplification() {
    let expr = "((bcd)*(abc)*)**a***(((abc)*)**)***";
    let mut parser = Parser::default();

    let res = simplify(ssnf(parser.parse(expr).unwrap()));
    let expected = ParsingResult::Concat {
        args: vec![
            ConcatArg::Star(Box::new(StarArg::Alt {
                args: vec![
                    AltArg::Concat {
                        args: vec![
                            ConcatArg::Char('a'),
                            ConcatArg::Char('b'),
                            ConcatArg::Char('c'),
                        ],
                        accepts_empty: false,
                    },
                    AltArg::Concat {
                        args: vec![
                            ConcatArg::Char('b'),
                            ConcatArg::Char('c'),
                            ConcatArg::Char('d'),
                        ],
                        accepts_empty: false,
                    },
                ],
                accepts_empty: false,
            })),
            ConcatArg::Star(Box::new(StarArg::Concat {
                args: vec![ConcatArg::Char('a')],
                accepts_empty: false,
            })),
            ConcatArg::Star(Box::new(StarArg::Concat {
                args: vec![ConcatArg::Char('a'), ConcatArg::Char('b'), ConcatArg::Char('c')],
                accepts_empty: false,
            })),
        ],
        accepts_empty: true,
    };

    assert_eq!(expected, res);
}
