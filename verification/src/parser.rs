//! Parsing of update expressions: `++x`, `--x`, `x++`, `x--`, or the
//! operand alone.

use vstd::prelude::*;
use vstd::std_specs::convert::FromSpecImpl;
use vstd::string::StringExecFns;

verus! {

/// A place in the source text.
#[derive(Clone, Copy, Debug, PartialEq, Eq)]
pub struct Position {
    pub line: u32,
    pub column: u32,
}

/// A punctuator.
#[derive(Clone, Copy, Debug, PartialEq, Eq)]
pub enum Punctuator {
    /// `++`
    Inc,
    /// `--`
    Dec,
    /// `+`
    Add,
    /// `-`
    Sub,
    /// `;`
    Semicolon,
}

/// What a token is.
#[derive(Clone, Debug, PartialEq, Eq)]
pub enum TokenKind {
    Punctuator(Punctuator),
    Identifier(String),
    BooleanLiteral(bool),
    NullLiteral,
}

/// A token: its kind and where it stands.
#[derive(Clone, Debug, PartialEq, Eq)]
pub struct Token {
    pub kind: TokenKind,
    pub pos: Position,
}

/// An update operator.
#[derive(Clone, Copy, Debug, PartialEq, Eq)]
pub enum UnaryOp {
    IncrementPre,
    DecrementPre,
    IncrementPost,
    DecrementPost,
}

/// A node of the syntax tree.
#[derive(Debug, PartialEq, Eq)]
pub enum Node {
    Identifier(String),
    Boolean(bool),
    Null,
    UnaryOp(UnaryOp, Box<Node>),
}

/// Why parsing failed.
#[derive(Clone, Copy, Debug, PartialEq, Eq)]
pub enum ParseError {
    /// The tokens ended where one was required.
    AbruptEnd,
    /// A token that cannot stand where it was found.
    Unexpected { found: Position },
}

/// Whether `yield` is a keyword where the parser stands.
#[derive(Clone, Copy, Debug, PartialEq, Eq)]
pub struct AllowYield(pub bool);

/// Whether `await` is a keyword where the parser stands.
#[derive(Clone, Copy, Debug, PartialEq, Eq)]
pub struct AllowAwait(pub bool);

impl From<bool> for AllowYield {
    fn from(allow: bool) -> (r: AllowYield) {
        AllowYield(allow)
    }
}

impl FromSpecImpl<bool> for AllowYield {
    open spec fn obeys_from_spec() -> bool {
        true
    }

    open spec fn from_spec(allow: bool) -> AllowYield {
        AllowYield(allow)
    }
}

impl From<bool> for AllowAwait {
    fn from(allow: bool) -> (r: AllowAwait) {
        AllowAwait(allow)
    }
}

impl FromSpecImpl<bool> for AllowAwait {
    open spec fn obeys_from_spec() -> bool {
        true
    }

    open spec fn from_spec(allow: bool) -> AllowAwait {
        AllowAwait(allow)
    }
}

/// A stream of tokens with a place in it. Tokens are looked at ahead of
/// the place and taken one by one; none is ever given back.
#[derive(Clone, Debug)]
pub struct Cursor {
    tokens: Vec<Token>,
    position: usize,
}

impl Cursor {
    /// The place is within the tokens or at their end.
    pub closed spec fn wf(&self) -> bool {
        self.position <= self.tokens.len()
    }

    /// All the tokens, taken or not.
    pub closed spec fn tokens(&self) -> Seq<Token> {
        self.tokens@
    }

    /// How many tokens were taken.
    pub closed spec fn position(&self) -> int {
        self.position as int
    }

    /// A cursor before the first of `tokens`.
    pub fn new(tokens: Vec<Token>) -> (r: Cursor)
        ensures
            r.wf(),
            r.tokens() == tokens@,
            r.position() == 0,
    {
        Cursor { tokens, position: 0 }
    }

    /// The token `skip` places ahead, without taking any.
    pub fn peek(&self, skip: usize) -> (r: Option<&Token>)
        requires
            self.wf(),
        ensures
            self.position() + skip < self.tokens().len() ==> r == Some(
                &self.tokens()[self.position() + skip],
            ),
            self.position() + skip >= self.tokens().len() ==> r is None,
    {
        if skip < self.tokens.len() - self.position {
            Some(&self.tokens[self.position + skip])
        } else {
            None
        }
    }

    /// Takes the next token.
    pub fn next(&mut self) -> (r: Option<&Token>)
        requires
            old(self).wf(),
        ensures
            final(self).wf(),
            final(self).tokens() == old(self).tokens(),
            old(self).position() < old(self).tokens().len() ==> r == Some(
                &old(self).tokens()[old(self).position()],
            ) && final(self).position() == old(self).position() + 1,
            old(self).position() >= old(self).tokens().len() ==> r is None
                && final(self).position() == old(self).position(),
    {
        if self.position < self.tokens.len() {
            self.position = self.position + 1;
            Some(&self.tokens[self.position - 1])
        } else {
            None
        }
    }
}

/// The operand at place `at`: an identifier or a literal. `yield` and
/// `await` are no identifiers where they are keywords. The second part is
/// the place after what was taken.
pub open spec fn operand(
    tokens: Seq<Token>,
    at: int,
    allow_yield: AllowYield,
    allow_await: AllowAwait,
) -> (Result<Node, ParseError>, int) {
    if at >= tokens.len() {
        (Err(ParseError::AbruptEnd), at)
    } else {
        match tokens[at].kind {
            TokenKind::Identifier(name) => if (allow_yield.0 && name@ == "yield"@) || (allow_await.0
                && name@ == "await"@) {
                (Err(ParseError::Unexpected { found: tokens[at].pos }), at)
            } else {
                (Ok(Node::Identifier(name)), at + 1)
            },
            TokenKind::BooleanLiteral(b) => (Ok(Node::Boolean(b)), at + 1),
            TokenKind::NullLiteral => (Ok(Node::Null), at + 1),
            TokenKind::Punctuator(_) => (Err(ParseError::Unexpected { found: tokens[at].pos }), at),
        }
    }
}

/// The operator of `kind`, before its operand or after it, where `kind`
/// is `++` or `--`.
pub open spec fn update_operator(kind: TokenKind, prefix: bool) -> Option<UnaryOp> {
    match kind {
        TokenKind::Punctuator(Punctuator::Inc) => Some(
            if prefix {
                UnaryOp::IncrementPre
            } else {
                UnaryOp::IncrementPost
            },
        ),
        TokenKind::Punctuator(Punctuator::Dec) => Some(
            if prefix {
                UnaryOp::DecrementPre
            } else {
                UnaryOp::DecrementPost
            },
        ),
        _ => None,
    }
}

/// The update expression at place `at`, and the place after what was
/// taken. After a leading `++` or `--` comes the operand and nothing
/// more; else the operand, with the `++` or `--` that follows it, if one
/// does. An error of the operand is the error of the whole.
pub open spec fn update_expression(
    tokens: Seq<Token>,
    at: int,
    allow_yield: AllowYield,
    allow_await: AllowAwait,
) -> (Result<Node, ParseError>, int) {
    if at >= tokens.len() {
        (Err(ParseError::AbruptEnd), at)
    } else {
        match update_operator(tokens[at].kind, true) {
            Some(op) => match operand(tokens, at + 1, allow_yield, allow_await) {
                (Ok(target), end) => (Ok(Node::UnaryOp(op, Box::new(target))), end),
                (Err(e), end) => (Err(e), end),
            },
            None => match operand(tokens, at, allow_yield, allow_await) {
                (Ok(lhs), end) => if end < tokens.len() {
                    match update_operator(tokens[end].kind, false) {
                        Some(op) => (Ok(Node::UnaryOp(op, Box::new(lhs))), end + 1),
                        None => (Ok(lhs), end),
                    }
                } else {
                    (Ok(lhs), end)
                },
                (Err(e), end) => (Err(e), end),
            },
        }
    }
}

/// Parsing only moves forward: an update expression takes no token
/// before its place, at most two tokens, and none beyond the end.
pub proof fn lemma_update_expression_advances(
    tokens: Seq<Token>,
    at: int,
    allow_yield: AllowYield,
    allow_await: AllowAwait,
)
    requires
        0 <= at <= tokens.len(),
    ensures
        at <= update_expression(tokens, at, allow_yield, allow_await).1 <= at + 2,
        update_expression(tokens, at, allow_yield, allow_await).1 <= tokens.len(),
        update_expression(tokens, at, allow_yield, allow_await).0 is Ok ==> at
            < update_expression(tokens, at, allow_yield, allow_await).1,
{
}

/// With no token left, parsing fails with `AbruptEnd` and takes nothing.
pub proof fn lemma_update_expression_at_end(
    tokens: Seq<Token>,
    allow_yield: AllowYield,
    allow_await: AllowAwait,
)
    ensures
        update_expression(tokens, tokens.len() as int, allow_yield, allow_await) == (
            Err::<Node, ParseError>(ParseError::AbruptEnd),
            tokens.len() as int,
        ),
{
}

/// The update operator that a token of `kind` is, if it is one.
fn operator_of(kind: &TokenKind, prefix: bool) -> (r: Option<UnaryOp>)
    ensures
        r == update_operator(*kind, prefix),
{
    match kind {
        TokenKind::Punctuator(Punctuator::Inc) => Some(
            if prefix {
                UnaryOp::IncrementPre
            } else {
                UnaryOp::IncrementPost
            },
        ),
        TokenKind::Punctuator(Punctuator::Dec) => Some(
            if prefix {
                UnaryOp::DecrementPre
            } else {
                UnaryOp::DecrementPost
            },
        ),
        _ => None,
    }
}

/// Whether `name` is spelled `word`.
fn is_word(name: &String, word: &str) -> (r: bool)
    ensures
        r == (name@ == word@),
{
    let word = String::from_str(word);
    name.eq(&word)
}

impl Node {
    /// The node of `op` applied to `target`.
    pub fn unary_op(op: UnaryOp, target: Node) -> (r: Node)
        ensures
            r == Node::UnaryOp(op, Box::new(target)),
    {
        Node::UnaryOp(op, Box::new(target))
    }
}

/// Parses the operand of an update expression.
#[derive(Clone, Copy, Debug)]
pub struct LeftHandSideExpression {
    allow_yield: AllowYield,
    allow_await: AllowAwait,
}

impl LeftHandSideExpression {
    /// The flags that the parser reads.
    pub closed spec fn context(&self) -> (AllowYield, AllowAwait) {
        (self.allow_yield, self.allow_await)
    }

    /// A parser with the given flags.
    pub fn new(allow_yield: AllowYield, allow_await: AllowAwait) -> (r: Self)
        ensures
            r.context() == (allow_yield, allow_await),
    {
        LeftHandSideExpression { allow_yield, allow_await }
    }

    /// Parses one operand at the cursor. On an error other than the end of
    /// the tokens, nothing is taken.
    pub fn parse(self, cursor: &mut Cursor) -> (r: Result<Node, ParseError>)
        requires
            old(cursor).wf(),
        ensures
            final(cursor).wf(),
            final(cursor).tokens() == old(cursor).tokens(),
            (r, final(cursor).position()) == operand(
                old(cursor).tokens(),
                old(cursor).position(),
                self.context().0,
                self.context().1,
            ),
    {
        let node = match cursor.peek(0) {
            None => {
                return Err(ParseError::AbruptEnd);
            },
            Some(tok) => match &tok.kind {
                TokenKind::Identifier(name) => {
                    let reserved: bool = (self.allow_yield.0 && is_word(name, "yield"))
                        || (self.allow_await.0 && is_word(name, "await"));
                    if reserved {
                        return Err(ParseError::Unexpected { found: tok.pos });
                    }
                    Node::Identifier(name.clone())
                },
                TokenKind::BooleanLiteral(b) => Node::Boolean(*b),
                TokenKind::NullLiteral => Node::Null,
                TokenKind::Punctuator(_) => {
                    return Err(ParseError::Unexpected { found: tok.pos });
                },
            },
        };
        cursor.next();
        Ok(node)
    }
}

/// Parses an update expression.
#[derive(Clone, Copy, Debug)]
pub struct UpdateExpression {
    allow_yield: AllowYield,
    allow_await: AllowAwait,
}

impl UpdateExpression {
    /// The flags that the parser hands to the parser of its operand.
    pub closed spec fn context(&self) -> (AllowYield, AllowAwait) {
        (self.allow_yield, self.allow_await)
    }

    /// A parser with the given flags.
    pub fn new<Y, A>(allow_yield: Y, allow_await: A) -> (r: Self) where
        Y: Into<AllowYield>,
        A: Into<AllowAwait>,

        ensures
            call_ensures(Y::into, (allow_yield,), r.context().0),
            call_ensures(A::into, (allow_await,), r.context().1),
    {
        UpdateExpression { allow_yield: allow_yield.into(), allow_await: allow_await.into() }
    }

    /// Parses one update expression at the cursor. A token, once taken,
    /// stays taken, also where the operand then fails.
    pub fn parse(self, cursor: &mut Cursor) -> (r: Result<Node, ParseError>)
        requires
            old(cursor).wf(),
        ensures
            final(cursor).wf(),
            final(cursor).tokens() == old(cursor).tokens(),
            (r, final(cursor).position()) == update_expression(
                old(cursor).tokens(),
                old(cursor).position(),
                self.context().0,
                self.context().1,
            ),
    {
        let prefix: Option<UnaryOp> = match cursor.peek(0) {
            None => {
                return Err(ParseError::AbruptEnd);
            },
            Some(tok) => operator_of(&tok.kind, true),
        };
        match prefix {
            Some(op) => {
                cursor.next();
                match LeftHandSideExpression::new(self.allow_yield, self.allow_await).parse(cursor) {
                    Ok(target) => Ok(Node::unary_op(op, target)),
                    Err(e) => Err(e),
                }
            },
            None => {
                let lhs = match LeftHandSideExpression::new(
                    self.allow_yield,
                    self.allow_await,
                ).parse(cursor) {
                    Ok(lhs) => lhs,
                    Err(e) => {
                        return Err(e);
                    },
                };
                let postfix: Option<UnaryOp> = match cursor.peek(0) {
                    None => None,
                    Some(tok) => operator_of(&tok.kind, false),
                };
                match postfix {
                    Some(op) => {
                        cursor.next();
                        Ok(Node::unary_op(op, lhs))
                    },
                    None => Ok(lhs),
                }
            },
        }
    }
}

} // verus!
