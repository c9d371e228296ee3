use rwasm_ext::ql::parser::{
    boolean_op_parser, by_char_parser, either_parser, expression_parser, identifier_parser,
    letter_parser, logic_op_parser, number_literal_parser, number_parser, parser_from_patterns,
    prefix_parser, seq_parser_chars, string_literal_parser, Parser, QlASTLiteral, QlASTNode,
    QlASTOp,
};
use rwasm_ext::ql::parser::QlASTNode::{QlIdent, QlLiteral, QlNodeExpr};
use rwasm_ext::ql::parser::QlExpr::{BinaryInfix, Term};

#[test]
fn parse_number_literals() {
    assert_eq!(
        number_literal_parser().parse("32"),
        Ok((QlLiteral(QlASTLiteral::QlNumber(32)), "")),
    );

    assert_eq!(
        number_literal_parser().parse("1"),
        Ok((QlLiteral(QlASTLiteral::QlNumber(1)), "")),
    );

    assert_eq!(
        number_literal_parser().parse("1 22"),
        Ok((QlLiteral(QlASTLiteral::QlNumber(1)), " 22")),
    );
}

#[test]
fn simple_binary_expr_parser_test() {
    assert_eq!(
        expression_parser().parse("'POST' == method"),
        Ok((
            QlNodeExpr(BinaryInfix(
                QlASTOp::EQ,
                Box::new(QlLiteral(QlASTLiteral::QlText("POST".to_string()))),
                Box::new(QlNodeExpr(Term(Box::new(QlIdent("method".to_string())))))
            )),
            ""
        ))
    );

    assert_eq!(
        expression_parser().parse("method == 'POST' == response_method"),
        Ok((
            QlNodeExpr(BinaryInfix(
                QlASTOp::EQ,
                Box::new(QlIdent("method".to_string())),
                Box::new(QlNodeExpr(BinaryInfix(
                    QlASTOp::EQ,
                    Box::new(QlLiteral(QlASTLiteral::QlText("POST".to_string()))),
                    Box::new(QlNodeExpr(Term(Box::new(QlIdent(
                        "response_method".to_string()
                    )))))
                )),)
            )),
            ""
        ))
    );

    assert_eq!(
        expression_parser().parse("method == 'POST' AND status_code == 200"),
        Ok((
            QlNodeExpr(BinaryInfix(
                QlASTOp::EQ,
                Box::new(QlIdent("method".to_string())),
                Box::new(QlNodeExpr(BinaryInfix(
                    QlASTOp::AND,
                    Box::new(QlLiteral(QlASTLiteral::QlText("POST".to_string()))),
                    Box::new(QlNodeExpr(BinaryInfix(
                        QlASTOp::EQ,
                        Box::new(QlIdent("status_code".to_string())),
                        Box::new(QlNodeExpr(Term(Box::new(QlLiteral(
                            QlASTLiteral::QlNumber(200)
                        )))))
                    )))
                )))
            )),
            ""
        ))
    );
}

#[test]
fn logic_op_parser_test() {
    assert_eq!(logic_op_parser().parse("AND"), Ok((QlASTOp::AND, "")));

    assert_eq!(logic_op_parser().parse("OR"), Ok((QlASTOp::OR, "")));

    assert_eq!(logic_op_parser().parse(""), Err(()));
}

#[test]
fn boolean_op_parser_test() {
    assert_eq!(boolean_op_parser().parse(""), Err(()));

    assert_eq!(boolean_op_parser().parse("=="), Ok((QlASTOp::EQ, "")));

    assert_eq!(boolean_op_parser().parse("!="), Ok((QlASTOp::NEQ, "")));

    assert_eq!(boolean_op_parser().parse("<"), Ok((QlASTOp::LT, "")));

    assert_eq!(boolean_op_parser().parse(">"), Ok((QlASTOp::GT, "")));
}

#[test]
fn string_literal_parser_test() {
    let inp = "'POST' == method";

    assert_eq!(
        string_literal_parser().parse(inp),
        Ok((
            QlASTNode::QlLiteral(QlASTLiteral::QlText("POST".to_string())),
            " == method"
        ))
    );
}

#[test]
fn parser_identifier_parser_test() {
    let inp = "@method == 'POST' and status_code == 200";

    assert_eq!(
        identifier_parser().parse(inp),
        Ok((
            QlASTNode::QlIdent("@method".to_string()),
            " == 'POST' and status_code == 200"
        ))
    );
}

#[test]
fn parser_any_char_parser() {
    let inp = "= 1";
    let parser = by_char_parser("=");

    assert_eq!(parser.parse(inp), Ok(("=".chars().next().unwrap(), " 1")))
}

#[test]
fn parser_letter_parser_test() {
    let inp = "abc";
    let parser = letter_parser();

    assert_eq!(parser.parse(inp), Ok(("a".chars().next().unwrap(), "bc")));

    let inp = "ABC";
    let parser = letter_parser();

    assert_eq!(parser.parse(inp), Ok(("A".chars().next().unwrap(), "BC")));
}

#[test]
fn parser_number_parser_test() {
    let inp = "99";
    let parser = number_parser();

    assert_eq!(parser.parse(inp), Ok(("9".chars().next().unwrap(), "9")));
}

#[test]
fn parser_syms_local_parser_test() {
    let parse_syms = || parser_from_patterns(vec![('_', '_'), ('@', '@'), ('!', '!')]);

    let inp = "_!@";
    let parser = seq_parser_chars(parse_syms());

    assert_eq!(parser.parse(inp), Ok(("_!@".to_string(), "")));
}

#[test]
fn parser_sequence_parser() {
    let inp = "abc dd";
    let parser = seq_parser_chars(letter_parser());

    assert_eq!(Ok(("abc".to_string(), " dd")), parser.parse(inp))
}

#[test]
fn parser_combinator_either() {
    let either_comb = either_parser(letter_parser(), number_parser());

    assert_eq!(
        either_comb.parse("abc 232"),
        Ok(("a".chars().next().unwrap(), "bc 232"))
    );
    assert_eq!(
        either_comb.parse("232 abc"),
        Ok(("2".chars().next().unwrap(), "32 abc"))
    );
}

#[test]
fn parse_access_operator() {
    let either_comb = either_parser(letter_parser(), number_parser());

    assert_eq!(
        either_comb.parse("abc 232"),
        Ok(("a".chars().next().unwrap(), "bc 232"))
    );
    assert_eq!(
        either_comb.parse("232 abc"),
        Ok(("2".chars().next().unwrap(), "32 abc"))
    );
}

#[test]
fn parse_with_prefix() {
    let signed_num_parser = prefix_parser(by_char_parser("+"), seq_parser_chars(number_parser()));
    let input = "+1111";

    assert_eq!(signed_num_parser.parse(input), Ok(("1111".to_string(), "")),)
}
