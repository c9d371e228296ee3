use rwasm_ext::ql::{
    by_char_parser, either_parser, identifier_parser, letter_parser, literal_string_parser,
    logic_expression_parser, number_parser, seq_parser, Parser, QlASTLiteral, QlASTNode, QlExpr,
};
use rwasm_ext::ql::parser::parser_from_patterns;

#[test]
fn execution_result() {}

#[test]
fn double_expr_parser_test() {
    let expr1 = "'POST' == method and 'POST' == method".to_string();

    assert_eq!(
        logic_expression_parser().parse(expr1),
        Ok((
            QlASTNode::QlNodeExpr(QlExpr::Eq(
                Box::new(QlASTNode::QlLiteral(QlASTLiteral::QlText("POST".to_string()))),
                Box::new(QlASTNode::QlIdent("method".to_string()))
            ),),
            "".to_string()
        ))
    );
}

#[test]
fn simple_expr_parser_test() {
    assert_eq!(
        logic_expression_parser().parse("'POST' == method".to_string()),
        Ok((
            QlASTNode::QlNodeExpr(QlExpr::Eq(
                Box::new(QlASTNode::QlLiteral(QlASTLiteral::QlText("POST".to_string()))),
                Box::new(QlASTNode::QlIdent("method".to_string()))
            ),),
            "".to_string()
        ))
    );

    assert_eq!(
        logic_expression_parser().parse("method == 'POST'".to_string()),
        Ok((
            QlASTNode::QlNodeExpr(QlExpr::Eq(
                Box::new(QlASTNode::QlIdent("method".to_string())),
                Box::new(QlASTNode::QlLiteral(QlASTLiteral::QlText("POST".to_string()))),
            ),),
            "".to_string()
        ))
    );

    assert_eq!(
        logic_expression_parser().parse("method == 'POST' == response_method".to_string()),
        Ok((
            QlASTNode::QlNodeExpr(QlExpr::Eq(
                Box::new(QlASTNode::QlIdent("method".to_string())),
                Box::new(QlASTNode::QlNodeExpr(QlExpr::Eq(
                    Box::new(QlASTNode::QlLiteral(QlASTLiteral::QlText("POST".to_string()))),
                    Box::new(QlASTNode::QlIdent("response_method".to_string())),
                ))),
            ),),
            "".to_string()
        ))
    );
}

#[test]
fn literal_parser_test() {
    let inp = "'POST' == method".to_string();

    assert_eq!(
        literal_string_parser().parse(inp),
        Ok((
            QlASTNode::QlLiteral(QlASTLiteral::QlText("POST".to_string())),
            " == method".to_string()
        ))
    );
}

#[test]
fn ql_identifier_parser_test() {
    let inp = "@method == 'POST' and status_code == 200".to_string();

    assert_eq!(
        identifier_parser().parse(inp),
        Ok((
            QlASTNode::QlIdent("@method".to_string()),
            " == 'POST' and status_code == 200".to_string()
        ))
    );
}

#[test]
fn ql_any_char_parser() {
    let inp = "= 1".to_string();
    let parser = by_char_parser("=");

    assert_eq!(parser.parse(inp), Ok(("=".to_string(), " 1".to_string())))
}

#[test]
fn ql_letter_parser_test() {
    let inp = "abc".to_string();
    let parser = letter_parser();

    assert_eq!(parser.parse(inp), Ok(("a".to_string(), "bc".to_string())));

    let inp = "ABC".to_string();
    let parser = letter_parser();

    assert_eq!(parser.parse(inp), Ok(("A".to_string(), "BC".to_string())));
}

#[test]
fn ql_number_parser_test() {
    let inp = "99".to_string();
    let parser = number_parser();

    assert_eq!(parser.parse(inp), Ok(("9".to_string(), "9".to_string())));
}

#[test]
fn ql_syms_local_parser_test() {
    let parse_syms = || parser_from_patterns(vec![('_', '_'), ('@', '@'), ('!', '!')]);

    let inp = "_!@".to_string();
    let parser = seq_parser(parse_syms());

    assert_eq!(parser.parse(inp), Ok(("_!@".to_string(), "".to_string())));
}

#[test]
fn ql_sequence_parser() {
    let inp = "abc dd".to_string();
    let parser = seq_parser(letter_parser());

    assert_eq!(parser.parse(inp), Ok(("abc".to_string(), " dd".to_string())))
}

#[test]
fn ql_combinator_either() {
    let either_comb = either_parser(letter_parser(), number_parser());

    assert_eq!(
        either_comb.parse("abc 232".to_string()),
        Ok(("a".to_string(), "bc 232".to_string()))
    );
    assert_eq!(
        either_comb.parse("232 abc".to_string()),
        Ok(("2".to_string(), "32 abc".to_string()))
    );
}
