use rwasm_ext::ql::{
    by_char_parser, either_parser, identifier_parser, letter_parser, literal_string_parser,
    logic_expression_parser, seq_parser, skip_space, symbol_parser, Parser, QlASTLiteral,
    QlASTNode, QlExpr,
};

#[test]
fn ql_logic_expression_single_operand() {
    assert_eq!(
        logic_expression_parser().parse("method".to_string()),
        Ok((QlASTNode::QlIdent("method".to_string()), "".to_string()))
    );
    assert_eq!(
        logic_expression_parser().parse("'x'".to_string()),
        Ok((QlASTNode::QlLiteral(QlASTLiteral::QlText("x".to_string())), "".to_string()))
    );
}

#[test]
fn ql_logic_expression_refusals() {
    // after an operand only the word `==` is read
    assert_eq!(logic_expression_parser().parse("a b".to_string()), Err(()));
    assert_eq!(logic_expression_parser().parse("a != b".to_string()), Err(()));
}

#[test]
fn ql_logic_expression_nests_to_the_right() {
    let (rest_node, rest_left) = logic_expression_parser().parse("b == c".to_string()).unwrap();
    assert_eq!(
        logic_expression_parser().parse("a == b == c".to_string()),
        Ok((
            QlASTNode::QlNodeExpr(QlExpr::Eq(
                Box::new(QlASTNode::QlIdent("a".to_string())),
                Box::new(rest_node)
            )),
            rest_left
        ))
    );
}

#[test]
fn ql_char_parser_edges() {
    assert_eq!(by_char_parser("ab").parse("abc".to_string()), Err(()));
    assert_eq!(by_char_parser("").parse("abc".to_string()), Err(()));
    assert_eq!(letter_parser().parse("".to_string()), Err(()));
    assert_eq!(symbol_parser().parse("?!".to_string()), Ok(("?".to_string(), "!".to_string())));
    let either = either_parser(symbol_parser(), letter_parser());
    assert_eq!(seq_parser(either).parse("a.b c".to_string()), Ok(("a.b".to_string(), " c".to_string())));
}

#[test]
fn ql_literal_and_identifier_edges() {
    assert_eq!(literal_string_parser().parse("'abc".to_string()), Err(()));
    assert_eq!(
        literal_string_parser().parse("'a-b' x".to_string()),
        Ok((QlASTNode::QlLiteral(QlASTLiteral::QlText("a-b".to_string())), " x".to_string()))
    );
    assert_eq!(
        identifier_parser().parse("9x".to_string()),
        Ok((QlASTNode::QlIdent("".to_string()), "9x".to_string()))
    );
    assert_eq!(skip_space().parse(" x".to_string()), Ok(((), "x".to_string())));
}

#[test]
fn ql_seq_reads_then_leaves_input() {
    let inp = "abc12".to_string();
    let (read, rest) = seq_parser(letter_parser()).parse(inp.clone()).unwrap();
    assert_eq!(format!("{}{}", read, rest), inp);
}

#[test]
fn ql_logic_expression_and_ends_reading() {
    assert_eq!(
        logic_expression_parser().parse("a and b".to_string()),
        Ok((QlASTNode::QlIdent("a".to_string()), "".to_string()))
    );
    assert_eq!(logic_expression_parser().parse("a and".to_string()), Err(()));
    assert_eq!(logic_expression_parser().parse("a and b c".to_string()), Err(()));
}
