use boa::parser::{
    AllowAwait, AllowYield, Cursor, LeftHandSideExpression, Node, ParseError, Position,
    Punctuator, Token, TokenKind, UnaryOp, UpdateExpression,
};

fn tokens(kinds: Vec<TokenKind>) -> Vec<Token> {
    let mut out = Vec::new();
    let mut column = 1;
    for kind in kinds {
        out.push(Token { kind, pos: Position { line: 1, column } });
        column += 1;
    }
    out
}

fn ident(name: &str) -> TokenKind {
    TokenKind::Identifier(String::from(name))
}

fn inc() -> TokenKind {
    TokenKind::Punctuator(Punctuator::Inc)
}

fn dec() -> TokenKind {
    TokenKind::Punctuator(Punctuator::Dec)
}

fn x() -> Node {
    Node::Identifier(String::from("x"))
}

fn parse(kinds: Vec<TokenKind>) -> (Result<Node, ParseError>, Option<Token>) {
    let mut cursor = Cursor::new(tokens(kinds));
    let r = UpdateExpression::new(false, false).parse(&mut cursor);
    let rest = cursor.peek(0).cloned();
    (r, rest)
}

#[test]
fn prefix_increment() {
    let (r, rest) = parse(vec![inc(), ident("x")]);
    assert_eq!(r, Ok(Node::UnaryOp(UnaryOp::IncrementPre, Box::new(x()))));
    assert_eq!(rest, None);
}

#[test]
fn postfix_increment() {
    let (r, rest) = parse(vec![ident("x"), inc()]);
    assert_eq!(r, Ok(Node::UnaryOp(UnaryOp::IncrementPost, Box::new(x()))));
    assert_eq!(rest, None);
}

#[test]
fn empty_stream_is_abrupt_end() {
    let (r, _) = parse(vec![]);
    assert_eq!(r, Err(ParseError::AbruptEnd));
}

#[test]
fn prefix_and_postfix_decrement() {
    let (r, _) = parse(vec![dec(), ident("x")]);
    assert_eq!(r, Ok(Node::unary_op(UnaryOp::DecrementPre, x())));
    let (r, _) = parse(vec![ident("x"), dec()]);
    assert_eq!(r, Ok(Node::unary_op(UnaryOp::DecrementPost, x())));
}

#[test]
fn operand_alone_is_returned_unchanged() {
    let (r, rest) = parse(vec![ident("x")]);
    assert_eq!(r, Ok(x()));
    assert_eq!(rest, None);
    let (r, rest) = parse(vec![ident("x"), TokenKind::Punctuator(Punctuator::Add), ident("y")]);
    assert_eq!(r, Ok(x()));
    assert_eq!(rest.map(|t| t.kind), Some(TokenKind::Punctuator(Punctuator::Add)));
    let (r, _) = parse(vec![TokenKind::BooleanLiteral(true)]);
    assert_eq!(r, Ok(Node::Boolean(true)));
    let (r, _) = parse(vec![TokenKind::NullLiteral, inc()]);
    assert_eq!(r, Ok(Node::unary_op(UnaryOp::IncrementPost, Node::Null)));
}

#[test]
fn prefix_form_leaves_a_trailing_operator() {
    let (r, rest) = parse(vec![inc(), ident("x"), dec()]);
    assert_eq!(r, Ok(Node::unary_op(UnaryOp::IncrementPre, x())));
    assert_eq!(rest.map(|t| t.kind), Some(dec()));
}

#[test]
fn only_one_postfix_operator_is_taken() {
    let (r, rest) = parse(vec![ident("x"), inc(), inc()]);
    assert_eq!(r, Ok(Node::unary_op(UnaryOp::IncrementPost, x())));
    assert_eq!(rest.map(|t| t.kind), Some(inc()));
}

#[test]
fn prefix_without_operand_is_abrupt_end() {
    let mut cursor = Cursor::new(tokens(vec![inc()]));
    let r = UpdateExpression::new(false, false).parse(&mut cursor);
    assert_eq!(r, Err(ParseError::AbruptEnd));
    assert!(cursor.peek(0).is_none());
}

#[test]
fn operand_error_propagates() {
    let (r, rest) = parse(vec![inc(), TokenKind::Punctuator(Punctuator::Semicolon)]);
    assert_eq!(r, Err(ParseError::Unexpected { found: Position { line: 1, column: 2 } }));
    assert_eq!(rest.map(|t| t.kind), Some(TokenKind::Punctuator(Punctuator::Semicolon)));
    let (r, rest) = parse(vec![TokenKind::Punctuator(Punctuator::Sub), ident("x")]);
    assert_eq!(r, Err(ParseError::Unexpected { found: Position { line: 1, column: 1 } }));
    assert_eq!(rest.map(|t| t.kind), Some(TokenKind::Punctuator(Punctuator::Sub)));
}

#[test]
fn context_reaches_the_operand() {
    let mut cursor = Cursor::new(tokens(vec![inc(), ident("yield")]));
    let r = UpdateExpression::new(true, false).parse(&mut cursor);
    assert_eq!(r, Err(ParseError::Unexpected { found: Position { line: 1, column: 2 } }));

    let mut cursor = Cursor::new(tokens(vec![inc(), ident("yield")]));
    let r = UpdateExpression::new(false, true).parse(&mut cursor);
    assert_eq!(
        r,
        Ok(Node::unary_op(UnaryOp::IncrementPre, Node::Identifier(String::from("yield"))))
    );

    let mut cursor = Cursor::new(tokens(vec![ident("await"), dec()]));
    let r = UpdateExpression::new(AllowYield(false), AllowAwait(true)).parse(&mut cursor);
    assert_eq!(r, Err(ParseError::Unexpected { found: Position { line: 1, column: 1 } }));

    let mut cursor = Cursor::new(tokens(vec![ident("await"), dec()]));
    let r = UpdateExpression::new(AllowYield(true), AllowAwait(false)).parse(&mut cursor);
    assert_eq!(
        r,
        Ok(Node::unary_op(UnaryOp::DecrementPost, Node::Identifier(String::from("await"))))
    );
}

#[test]
fn operand_parser_takes_one_token() {
    let mut cursor = Cursor::new(tokens(vec![ident("x"), ident("y")]));
    let r = LeftHandSideExpression::new(AllowYield(false), AllowAwait(false)).parse(&mut cursor);
    assert_eq!(r, Ok(x()));
    assert_eq!(cursor.peek(0).map(|t| t.kind.clone()), Some(ident("y")));
    assert_eq!(cursor.peek(1), None);
}

#[test]
fn cursor_peeks_ahead_and_takes_in_order() {
    let mut cursor = Cursor::new(tokens(vec![ident("a"), inc(), ident("b")]));
    assert_eq!(cursor.peek(0).map(|t| t.kind.clone()), Some(ident("a")));
    assert_eq!(cursor.peek(2).map(|t| t.kind.clone()), Some(ident("b")));
    assert_eq!(cursor.peek(3), None);
    assert_eq!(cursor.peek(usize::MAX), None);
    assert_eq!(cursor.next().map(|t| t.kind.clone()), Some(ident("a")));
    assert_eq!(cursor.next().map(|t| t.kind.clone()), Some(inc()));
    assert_eq!(cursor.next().map(|t| t.kind.clone()), Some(ident("b")));
    assert_eq!(cursor.next(), None);
    assert_eq!(cursor.next(), None);
}
