//! The data model shared by the scanner and the parser: tokens, expressions,
//! statements, and the errors a parse can report, together with the
//! mathematical views (`SpecToken`, `SpecExpr`, `SpecStmt`, `SpecParseError`)
//! that the contracts speak of.

use vstd::prelude::*;

verus! {

/// The value of a numeric literal, held exactly: the literal `digits[.digits]`
/// denotes `mantissa / 10^scale`, where `mantissa` is the number written by
/// the digit runs joined together and `scale` is the number of digits after
/// the dot. `"3.14"` is `{ mantissa: 314, scale: 2 }`; `"12"` is
/// `{ mantissa: 12, scale: 0 }`. A literal whose mantissa does not fit in
/// `u64` degrades to zero, as the scanner's contract states.
#[derive(Clone, Copy, PartialEq, Eq, Structural, Debug)]
pub struct NumValue {
    pub mantissa: u64,
    pub scale: usize,
}

/// One lexical unit, as the scanner hands it to the parser.
#[derive(Clone, PartialEq, Debug)]
pub enum Token {
    LitNum(NumValue),
    LitStr(String),
    Identifier(String),
    Plus,
    Minus,
    Star,
    Slash,
    Eq,
    Colon,
    Comma,
    Dot,
    Semicolon,
    ParenL,
    ParenR,
    BraceL,
    BraceR,
    Func,
    Var,
    If,
    Else,
    While,
    For,
    Return,
    Eof,
}

/// The mathematical model of a token: literal payloads are sequences of
/// characters and unbounded integers.
pub ghost enum SpecToken {
    LitNum(nat, nat),
    LitStr(Seq<char>),
    Identifier(Seq<char>),
    Plus,
    Minus,
    Star,
    Slash,
    Eq,
    Colon,
    Comma,
    Dot,
    Semicolon,
    ParenL,
    ParenR,
    BraceL,
    BraceR,
    Func,
    Var,
    If,
    Else,
    While,
    For,
    Return,
    Eof,
}

impl View for Token {
    type V = SpecToken;

    open spec fn view(&self) -> SpecToken {
        match self {
            Token::LitNum(n) => SpecToken::LitNum(n.mantissa as nat, n.scale as nat),
            Token::LitStr(s) => SpecToken::LitStr(s@),
            Token::Identifier(s) => SpecToken::Identifier(s@),
            Token::Plus => SpecToken::Plus,
            Token::Minus => SpecToken::Minus,
            Token::Star => SpecToken::Star,
            Token::Slash => SpecToken::Slash,
            Token::Eq => SpecToken::Eq,
            Token::Colon => SpecToken::Colon,
            Token::Comma => SpecToken::Comma,
            Token::Dot => SpecToken::Dot,
            Token::Semicolon => SpecToken::Semicolon,
            Token::ParenL => SpecToken::ParenL,
            Token::ParenR => SpecToken::ParenR,
            Token::BraceL => SpecToken::BraceL,
            Token::BraceR => SpecToken::BraceR,
            Token::Func => SpecToken::Func,
            Token::Var => SpecToken::Var,
            Token::If => SpecToken::If,
            Token::Else => SpecToken::Else,
            Token::While => SpecToken::While,
            Token::For => SpecToken::For,
            Token::Return => SpecToken::Return,
            Token::Eof => SpecToken::Eof,
        }
    }
}

/// The four arithmetic operators of binary expressions.
#[derive(Clone, Copy, PartialEq, Eq, Structural, Debug)]
pub enum Operation {
    Add,
    Sub,
    Mul,
    Div,
}

/// A computable term: a literal, a variable, a binary operation, a function
/// call, or the `Null` placeholder used where a declaration carries no
/// expression. Every node owns its children outright.
#[derive(PartialEq, Debug)]
pub enum Expr {
    Null,
    LitNum(NumValue),
    LitStr(String),
    Variable(String),
    OpBinary(Operation, Box<Expr>, Box<Expr>),
    FunctionCall(String, Vec<Expr>),
}

/// The mathematical model of an expression tree.
pub ghost enum SpecExpr {
    Null,
    LitNum(nat, nat),
    LitStr(Seq<char>),
    Variable(Seq<char>),
    OpBinary(Operation, Box<SpecExpr>, Box<SpecExpr>),
    FunctionCall(Seq<char>, Seq<SpecExpr>),
}

/// The model of an expression tree: strings become character sequences and
/// numeric payloads become unbounded integers.
pub open spec fn expr_view(e: Expr) -> SpecExpr
    decreases e, 0int,
{
    match e {
        Expr::Null => SpecExpr::Null,
        Expr::LitNum(n) => SpecExpr::LitNum(n.mantissa as nat, n.scale as nat),
        Expr::LitStr(s) => SpecExpr::LitStr(s@),
        Expr::Variable(s) => SpecExpr::Variable(s@),
        Expr::OpBinary(op, l, r) => SpecExpr::OpBinary(
            op,
            Box::new(expr_view(*l)),
            Box::new(expr_view(*r)),
        ),
        Expr::FunctionCall(name, args) => SpecExpr::FunctionCall(name@, exprs_view(args)),
    }
}

/// The models of the first `n` expressions of a list.
pub open spec fn exprs_view_upto(es: Vec<Expr>, n: int) -> Seq<SpecExpr>
    decreases es, n,
    when n <= es@.len()
{
    if n <= 0 {
        Seq::empty()
    } else {
        exprs_view_upto(es, n - 1).push(expr_view(es[n - 1]))
    }
}

/// The models of a list of expressions, in order.
pub open spec fn exprs_view(es: Vec<Expr>) -> Seq<SpecExpr>
    decreases es, es@.len() + 1,
{
    exprs_view_upto(es, es@.len() as int)
}

/// What `exprs_view` holds elementwise.
pub proof fn lemma_exprs_view(es: Vec<Expr>)
    ensures
        exprs_view(es).len() == es@.len(),
        forall|i: int| 0 <= i < es@.len() ==> exprs_view(es)[i] == expr_view(es@[i]),
{
    lemma_exprs_view_upto(es, es@.len() as int);
}

proof fn lemma_exprs_view_upto(es: Vec<Expr>, n: int)
    requires
        n <= es@.len(),
    ensures
        exprs_view_upto(es, n).len() == if n <= 0 { 0int } else { n },
        forall|i: int| 0 <= i < n ==> exprs_view_upto(es, n)[i] == expr_view(es@[i]),
    decreases n,
{
    if n > 0 {
        lemma_exprs_view_upto(es, n - 1);
    }
}

/// Pushing an expression onto a list pushes its model onto the list's model.
pub proof fn lemma_exprs_view_push(es: Vec<Expr>, e: Expr, es2: Vec<Expr>)
    requires
        es2@ == es@.push(e),
    ensures
        exprs_view(es2) == exprs_view(es).push(expr_view(e)),
{
    lemma_exprs_view(es);
    lemma_exprs_view(es2);
    assert(exprs_view(es2) =~= exprs_view(es).push(expr_view(e)));
}

impl View for Expr {
    type V = SpecExpr;

    open spec fn view(&self) -> SpecExpr {
        expr_view(*self)
    }
}

/// A top-level or block construct: a function declaration, a variable
/// declaration, a bare expression, or a program (an ordered run of
/// statements). The root of every parse is a `Program`.
#[derive(PartialEq, Debug)]
pub enum Stmt {
    FunctionDecl(Expr, String, Vec<String>, Box<Stmt>),
    VariableDecl(String, Expr),
    Program(Vec<Stmt>),
    Expr(Expr),
}

/// The mathematical model of a statement tree.
pub ghost enum SpecStmt {
    FunctionDecl(SpecExpr, Seq<char>, Seq<Seq<char>>, Box<SpecStmt>),
    VariableDecl(Seq<char>, SpecExpr),
    Program(Seq<SpecStmt>),
    Expr(SpecExpr),
}

/// The models of a list of parameter names, in order.
pub open spec fn names_view(names: Vec<String>) -> Seq<Seq<char>> {
    Seq::new(names@.len(), |i: int| names@[i]@)
}

/// The model of a statement tree.
pub open spec fn stmt_view(s: Stmt) -> SpecStmt
    decreases s, 0int,
{
    match s {
        Stmt::FunctionDecl(ret, name, params, body) => SpecStmt::FunctionDecl(
            expr_view(ret),
            name@,
            names_view(params),
            Box::new(stmt_view(*body)),
        ),
        Stmt::VariableDecl(name, init) => SpecStmt::VariableDecl(name@, expr_view(init)),
        Stmt::Program(stmts) => SpecStmt::Program(stmts_view(stmts)),
        Stmt::Expr(e) => SpecStmt::Expr(expr_view(e)),
    }
}

/// The models of the first `n` statements of a list.
pub open spec fn stmts_view_upto(ss: Vec<Stmt>, n: int) -> Seq<SpecStmt>
    decreases ss, n,
    when n <= ss@.len()
{
    if n <= 0 {
        Seq::empty()
    } else {
        stmts_view_upto(ss, n - 1).push(stmt_view(ss[n - 1]))
    }
}

/// The models of a list of statements, in order.
pub open spec fn stmts_view(ss: Vec<Stmt>) -> Seq<SpecStmt>
    decreases ss, ss@.len() + 1,
{
    stmts_view_upto(ss, ss@.len() as int)
}

/// What `stmts_view` holds elementwise.
pub proof fn lemma_stmts_view(ss: Vec<Stmt>)
    ensures
        stmts_view(ss).len() == ss@.len(),
        forall|i: int| 0 <= i < ss@.len() ==> stmts_view(ss)[i] == stmt_view(ss@[i]),
{
    lemma_stmts_view_upto(ss, ss@.len() as int);
}

proof fn lemma_stmts_view_upto(ss: Vec<Stmt>, n: int)
    requires
        n <= ss@.len(),
    ensures
        stmts_view_upto(ss, n).len() == if n <= 0 { 0int } else { n },
        forall|i: int| 0 <= i < n ==> stmts_view_upto(ss, n)[i] == stmt_view(ss@[i]),
    decreases n,
{
    if n > 0 {
        lemma_stmts_view_upto(ss, n - 1);
    }
}

/// Pushing a statement onto a list pushes its model onto the list's model.
pub proof fn lemma_stmts_view_push(ss: Vec<Stmt>, s: Stmt, ss2: Vec<Stmt>)
    requires
        ss2@ == ss@.push(s),
    ensures
        stmts_view(ss2) == stmts_view(ss).push(stmt_view(s)),
{
    lemma_stmts_view(ss);
    lemma_stmts_view(ss2);
    assert(stmts_view(ss2) =~= stmts_view(ss).push(stmt_view(s)));
}

/// Pushing a name onto a list pushes its characters onto the list's model.
pub proof fn lemma_names_view_push(ns: Vec<String>, n: String, ns2: Vec<String>)
    requires
        ns2@ == ns@.push(n),
    ensures
        names_view(ns2) == names_view(ns).push(n@),
{
    assert(names_view(ns2) =~= names_view(ns).push(n@));
}

impl View for Stmt {
    type V = SpecStmt;

    open spec fn view(&self) -> SpecStmt {
        stmt_view(*self)
    }
}

/// Why a parse stopped: the token at the cursor did not fit the grammar.
/// `ExpectedToken(expected, found)` reports a position that requires one
/// structurally fixed token; the three `Expected...Name` variants report a
/// position that requires an identifier; `UnexpectedToken` reports a token
/// that cannot begin any construct at its position.
#[derive(Clone, PartialEq, Debug)]
pub enum ParseError {
    ExpectedToken(Token, Token),
    ExpectedFunctionName(Token),
    ExpectedParameterName(Token),
    ExpectedVariableName(Token),
    UnexpectedToken(Token),
}

/// The mathematical model of a parse error.
pub ghost enum SpecParseError {
    ExpectedToken(SpecToken, SpecToken),
    ExpectedFunctionName(SpecToken),
    ExpectedParameterName(SpecToken),
    ExpectedVariableName(SpecToken),
    UnexpectedToken(SpecToken),
}

impl View for ParseError {
    type V = SpecParseError;

    open spec fn view(&self) -> SpecParseError {
        match self {
            ParseError::ExpectedToken(e, f) => SpecParseError::ExpectedToken(e@, f@),
            ParseError::ExpectedFunctionName(f) => SpecParseError::ExpectedFunctionName(f@),
            ParseError::ExpectedParameterName(f) => SpecParseError::ExpectedParameterName(f@),
            ParseError::ExpectedVariableName(f) => SpecParseError::ExpectedVariableName(f@),
            ParseError::UnexpectedToken(f) => SpecParseError::UnexpectedToken(f@),
        }
    }
}

/// An exact copy of a token: the copy and the original have one model.
pub fn token_clone(t: &Token) -> (r: Token)
    ensures
        r@ == t@,
{
    match t {
        Token::LitNum(n) => Token::LitNum(*n),
        Token::LitStr(s) => Token::LitStr(s.clone()),
        Token::Identifier(s) => Token::Identifier(s.clone()),
        Token::Plus => Token::Plus,
        Token::Minus => Token::Minus,
        Token::Star => Token::Star,
        Token::Slash => Token::Slash,
        Token::Eq => Token::Eq,
        Token::Colon => Token::Colon,
        Token::Comma => Token::Comma,
        Token::Dot => Token::Dot,
        Token::Semicolon => Token::Semicolon,
        Token::ParenL => Token::ParenL,
        Token::ParenR => Token::ParenR,
        Token::BraceL => Token::BraceL,
        Token::BraceR => Token::BraceR,
        Token::Func => Token::Func,
        Token::Var => Token::Var,
        Token::If => Token::If,
        Token::Else => Token::Else,
        Token::While => Token::While,
        Token::For => Token::For,
        Token::Return => Token::Return,
        Token::Eof => Token::Eof,
    }
}

/// Structural equality of two tokens, decided in executable code and related
/// to equality of the tokens' views.
pub fn token_eq(a: &Token, b: &Token) -> (r: bool)
    ensures
        r == (a@ == b@),
{
    match (a, b) {
        (Token::LitNum(x), Token::LitNum(y)) => *x == *y,
        (Token::LitStr(x), Token::LitStr(y)) => *x == *y,
        (Token::Identifier(x), Token::Identifier(y)) => *x == *y,
        (Token::Plus, Token::Plus) => true,
        (Token::Minus, Token::Minus) => true,
        (Token::Star, Token::Star) => true,
        (Token::Slash, Token::Slash) => true,
        (Token::Eq, Token::Eq) => true,
        (Token::Colon, Token::Colon) => true,
        (Token::Comma, Token::Comma) => true,
        (Token::Dot, Token::Dot) => true,
        (Token::Semicolon, Token::Semicolon) => true,
        (Token::ParenL, Token::ParenL) => true,
        (Token::ParenR, Token::ParenR) => true,
        (Token::BraceL, Token::BraceL) => true,
        (Token::BraceR, Token::BraceR) => true,
        (Token::Func, Token::Func) => true,
        (Token::Var, Token::Var) => true,
        (Token::If, Token::If) => true,
        (Token::Else, Token::Else) => true,
        (Token::While, Token::While) => true,
        (Token::For, Token::For) => true,
        (Token::Return, Token::Return) => true,
        (Token::Eof, Token::Eof) => true,
        _ => false,
    }
}

} // verus!
