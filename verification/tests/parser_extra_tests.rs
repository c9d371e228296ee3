use rwasm_ext::ql::parser::QlASTNode::{QlIdent, QlLiteral, QlNodeExpr};
use rwasm_ext::ql::parser::QlExpr::{Access, BinaryInfix, Term};
use rwasm_ext::ql::parser::{
    boolean_op_parser, by_char_parser, either_parser, expression_parser, identifier_parser,
    letter_parser, logic_op_parser, number_literal_parser, number_parser, prefix_parser,
    seq_parser_chars, skip_space, string_literal_parser, symbol_parser, Parser, QlASTLiteral,
    QlASTOp,
};

#[test]
fn number_literal_bounds() {
    assert_eq!(
        number_literal_parser().parse("4294967295"),
        Ok((QlLiteral(QlASTLiteral::QlNumber(4294967295)), ""))
    );
    assert_eq!(number_literal_parser().parse("4294967296"), Err(()));
    assert_eq!(number_literal_parser().parse("99999999999999999999"), Err(()));
    assert_eq!(number_literal_parser().parse("abc"), Err(()));
    assert_eq!(number_literal_parser().parse(""), Err(()));
    assert_eq!(
        number_literal_parser().parse("007x"),
        Ok((QlLiteral(QlASTLiteral::QlNumber(7)), "x"))
    );
}

#[test]
fn string_literal_edges() {
    assert_eq!(string_literal_parser().parse("'abc"), Err(()));
    assert_eq!(string_literal_parser().parse("'a b'"), Err(()));
    assert_eq!(string_literal_parser().parse("abc'"), Err(()));
    assert_eq!(
        string_literal_parser().parse("''"),
        Ok((QlLiteral(QlASTLiteral::QlText("".to_string())), ""))
    );
    // a written literal reads back as its text, whatever follows
    assert_eq!(
        string_literal_parser().parse("'a+b.9' rest"),
        Ok((QlLiteral(QlASTLiteral::QlText("a+b.9".to_string())), " rest"))
    );
}

#[test]
fn identifier_edges() {
    assert_eq!(identifier_parser().parse(""), Ok((QlIdent("".to_string()), "")));
    assert_eq!(identifier_parser().parse("123"), Ok((QlIdent("".to_string()), "123")));
    assert_eq!(
        identifier_parser().parse("a_b$c=d e"),
        Ok((QlIdent("a_b$c=d".to_string()), " e"))
    );
}

#[test]
fn logic_op_edges() {
    assert_eq!(logic_op_parser().parse("ORX"), Ok((QlASTOp::OR, "X")));
    assert_eq!(logic_op_parser().parse("O"), Err(()));
    assert_eq!(logic_op_parser().parse("ANDX"), Ok((QlASTOp::AND, "X")));
    assert_eq!(logic_op_parser().parse("AN"), Err(()));
    assert_eq!(logic_op_parser().parse("and"), Err(()));
}

#[test]
fn boolean_op_edges() {
    assert_eq!(boolean_op_parser().parse("="), Err(()));
    assert_eq!(boolean_op_parser().parse("<="), Ok((QlASTOp::LT, "=")));
    assert_eq!(boolean_op_parser().parse("== x"), Ok((QlASTOp::EQ, " x")));
    assert_eq!(boolean_op_parser().parse("a"), Err(()));
}

#[test]
fn char_parsers_edges() {
    assert_eq!(by_char_parser("").parse("abc"), Err(()));
    assert_eq!(by_char_parser("ab").parse("abc"), Ok(('a', "bc")));
    assert_eq!(by_char_parser("é").parse("éa"), Ok(('é', "a")));
    assert_eq!(letter_parser().parse(""), Err(()));
    assert_eq!(letter_parser().parse("é"), Err(()));
    assert_eq!(symbol_parser().parse("\nx"), Ok(('\n', "x")));
    assert_eq!(symbol_parser().parse("'x"), Err(()));
    assert_eq!(number_parser().parse("a1"), Err(()));
}

#[test]
fn seq_and_prefix_edges() {
    assert_eq!(seq_parser_chars(letter_parser()).parse(""), Ok(("".to_string(), "")));
    assert_eq!(seq_parser_chars(letter_parser()).parse("1ab"), Ok(("".to_string(), "1ab")));
    let either = either_parser(letter_parser(), number_parser());
    assert_eq!(seq_parser_chars(either).parse("a1b2 c"), Ok(("a1b2".to_string(), " c")));
    let signed = prefix_parser(by_char_parser("+"), seq_parser_chars(number_parser()));
    assert_eq!(signed.parse("1"), Err(()));
    assert_eq!(signed.parse("+"), Ok(("".to_string(), "")));
}

#[test]
fn skip_space_drops_one_space() {
    assert_eq!(skip_space().parse("  a"), Ok(((), " a")));
    assert_eq!(skip_space().parse("a"), Ok(((), "a")));
    assert_eq!(skip_space().parse(""), Ok(((), "")));
}

#[test]
fn expression_more_operators() {
    assert_eq!(
        expression_parser().parse("a != b"),
        Ok((
            QlNodeExpr(BinaryInfix(
                QlASTOp::NEQ,
                Box::new(QlIdent("a".to_string())),
                Box::new(QlNodeExpr(Term(Box::new(QlIdent("b".to_string())))))
            )),
            ""
        ))
    );
    assert_eq!(
        expression_parser().parse("x < 5"),
        Ok((
            QlNodeExpr(BinaryInfix(
                QlASTOp::LT,
                Box::new(QlIdent("x".to_string())),
                Box::new(QlNodeExpr(Term(Box::new(QlLiteral(QlASTLiteral::QlNumber(5))))))
            )),
            ""
        ))
    );
    // the expression parser never fails: a lone operand is a term
    assert_eq!(
        expression_parser().parse("42 rest"),
        Ok((
            QlNodeExpr(Term(Box::new(QlLiteral(QlASTLiteral::QlNumber(42))))),
            "rest"
        ))
    );
    assert_eq!(
        expression_parser().parse(""),
        Ok((QlNodeExpr(Term(Box::new(QlIdent("".to_string())))), ""))
    );
}

#[test]
fn expression_nests_to_the_right() {
    // an identifier, ` == ` and the rest read as `==` of the identifier and the rest
    let (rest_node, rest_left) = expression_parser().parse("b > 'c'").unwrap();
    assert_eq!(
        expression_parser().parse("a == b > 'c'"),
        Ok((
            QlNodeExpr(BinaryInfix(
                QlASTOp::EQ,
                Box::new(QlIdent("a".to_string())),
                Box::new(rest_node)
            )),
            rest_left
        ))
    );
}

#[test]
fn parsers_leave_a_suffix() {
    let inputs = ["method == 'POST' AND status_code == 200", "'x' rest", "12ab", "  z"];
    for inp in inputs {
        if let Ok((_, rest)) = expression_parser().parse(inp) {
            assert!(inp.ends_with(rest));
        }
        if let Ok((_, rest)) = string_literal_parser().parse(inp) {
            assert!(inp.ends_with(rest));
        }
        if let Ok((_, rest)) = number_literal_parser().parse(inp) {
            assert!(inp.ends_with(rest));
        }
        if let Ok((read, rest)) = seq_parser_chars(letter_parser()).parse(inp) {
            assert_eq!(format!("{}{}", read, rest), inp);
        }
    }
}

#[test]
fn expression_or_is_infix() {
    assert_eq!(
        expression_parser().parse("a OR b"),
        Ok((
            QlNodeExpr(BinaryInfix(
                QlASTOp::OR,
                Box::new(QlIdent("a".to_string())),
                Box::new(QlNodeExpr(Term(Box::new(QlIdent("b".to_string())))))
            )),
            ""
        ))
    );
}

#[test]
fn expression_parentheses() {
    assert_eq!(
        expression_parser().parse("(a)"),
        Ok((
            QlNodeExpr(Term(Box::new(QlNodeExpr(Term(Box::new(QlIdent("a".to_string()))))))),
            ""
        ))
    );
    assert_eq!(
        expression_parser().parse("(a == b) AND c"),
        Ok((
            QlNodeExpr(BinaryInfix(
                QlASTOp::AND,
                Box::new(QlNodeExpr(BinaryInfix(
                    QlASTOp::EQ,
                    Box::new(QlIdent("a".to_string())),
                    Box::new(QlNodeExpr(Term(Box::new(QlIdent("b".to_string())))))
                ))),
                Box::new(QlNodeExpr(Term(Box::new(QlIdent("c".to_string())))))
            )),
            ""
        ))
    );
    // without its closing parenthesis the input starts with an empty identifier
    assert_eq!(
        expression_parser().parse("(a"),
        Ok((QlNodeExpr(Term(Box::new(QlIdent("".to_string())))), "(a"))
    );
}

#[test]
fn expression_paths() {
    assert_eq!(
        expression_parser().parse("request.method"),
        Ok((
            QlNodeExpr(Term(Box::new(QlNodeExpr(Access(
                Box::new(QlIdent("request".to_string())),
                vec![Box::new(QlIdent("method".to_string()))]
            ))))),
            ""
        ))
    );
    assert_eq!(
        expression_parser().parse("a[1].b == 2"),
        Ok((
            QlNodeExpr(BinaryInfix(
                QlASTOp::EQ,
                Box::new(QlNodeExpr(Access(
                    Box::new(QlIdent("a".to_string())),
                    vec![
                        Box::new(QlLiteral(QlASTLiteral::QlNumber(1))),
                        Box::new(QlIdent("b".to_string()))
                    ]
                ))),
                Box::new(QlNodeExpr(Term(Box::new(QlLiteral(QlASTLiteral::QlNumber(2))))))
            )),
            ""
        ))
    );
    // a bracket without a number ends the path
    assert_eq!(
        expression_parser().parse("a[x]"),
        Ok((QlNodeExpr(Term(Box::new(QlIdent("a".to_string())))), "[x]"))
    );
}
