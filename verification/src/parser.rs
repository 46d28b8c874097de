//! The parser: recursive descent over the scanner's token stream, with
//! precedence climbing for binary expressions. The grammar is written down
//! once, as the mathematical parser `sp_program` and its companions over a
//! token sequence; the executable parser returns exactly what they name, both
//! on success and on failure.

use vstd::prelude::*;

use crate::common::{
    exprs_view, names_view, stmts_view, token_clone, token_eq, Expr, NumValue, Operation,
    ParseError, SpecExpr, SpecParseError, SpecStmt, SpecToken, Stmt, Token,
};
use crate::lexer::{lemma_spec_next_bounds, spec_next, token_stream, Lexer};

verus! {

/// The token a stream holds at `i`: past its end the stream reads as an
/// endless run of `Eof`, exactly as the scanner behaves.
pub open spec fn tok_at(t: Seq<SpecToken>, i: nat) -> SpecToken {
    if i < t.len() {
        t[i as int]
    } else {
        SpecToken::Eof
    }
}

/// The binding strength of an operator: `+` and `-` bind at 1, `*` and `/`
/// at 2; higher binds tighter.
pub open spec fn op_prec(op: Operation) -> nat {
    match op {
        Operation::Add => 1,
        Operation::Sub => 1,
        Operation::Mul => 2,
        Operation::Div => 2,
    }
}

/// The operator a token denotes, if any.
pub open spec fn tok_op(t: SpecToken) -> Option<Operation> {
    match t {
        SpecToken::Plus => Some(Operation::Add),
        SpecToken::Minus => Some(Operation::Sub),
        SpecToken::Star => Some(Operation::Mul),
        SpecToken::Slash => Some(Operation::Div),
        _ => None,
    }
}

/// The operator the parser may consume when it works at minimum precedence
/// `min_prec`: an operator token whose precedence reaches that floor.
pub open spec fn applicable_op(t: SpecToken, min_prec: nat) -> Option<Operation> {
    match tok_op(t) {
        Some(op) => if op_prec(op) >= min_prec {
            Some(op)
        } else {
            None
        },
        None => None,
    }
}

/// Clamps the index a sub-parse returned into `(i, n]`, so that the measure
/// of the definitions below visibly shrinks. A successful sub-parse always
/// consumes at least one token and never leaves the stream, so on every
/// reachable path the clamp returns `j` unchanged.
pub open spec fn step_idx(i: nat, j: nat, n: nat) -> nat {
    if i < j && j <= n {
        j
    } else {
        i + 1
    }
}

/// As `step_idx`, for a sub-parse that may consume nothing.
pub open spec fn hold_idx(i: nat, j: nat, n: nat) -> nat {
    if i <= j && j <= n {
        j
    } else {
        i
    }
}

/// A primary expression at `i`: a numeric or string literal, an identifier
/// (a call when `(` follows, else a variable), or a parenthesized
/// expression. Any other token cannot begin an expression.
pub open spec fn sp_primary(t: Seq<SpecToken>, i: nat) -> Result<(SpecExpr, nat), SpecParseError>
    decreases t.len() - i, 0int,
    when i <= t.len()
{
    match tok_at(t, i) {
        SpecToken::LitNum(m, sc) => Ok((SpecExpr::LitNum(m, sc), i + 1)),
        SpecToken::LitStr(cs) => Ok((SpecExpr::LitStr(cs), i + 1)),
        SpecToken::Identifier(name) => if tok_at(t, i + 1) == SpecToken::ParenL {
            sp_call_args(t, i + 2, name)
        } else {
            Ok((SpecExpr::Variable(name), i + 1))
        },
        SpecToken::ParenL => match sp_expression(t, i + 1) {
            Ok(r) => if tok_at(t, r.1) == SpecToken::ParenR {
                Ok((r.0, r.1 + 1))
            } else {
                Err(SpecParseError::ExpectedToken(SpecToken::ParenR, tok_at(t, r.1)))
            },
            Err(e) => Err(e),
        },
        other => Err(SpecParseError::UnexpectedToken(other)),
    }
}

/// The argument list of a call whose name and `(` stand just before `i`:
/// either `)` at once, or one or more comma-separated expressions followed
/// by `)`. After a comma another argument is required, so a trailing comma
/// is refused.
pub open spec fn sp_call_args(t: Seq<SpecToken>, i: nat, name: Seq<char>) -> Result<
    (SpecExpr, nat),
    SpecParseError,
>
    decreases t.len() - i, 5int,
    when i <= t.len()
{
    if tok_at(t, i) == SpecToken::ParenR {
        Ok((SpecExpr::FunctionCall(name, Seq::empty()), i + 1))
    } else {
        match sp_args_more(t, i) {
            Ok(r) => Ok((SpecExpr::FunctionCall(name, r.0), r.1)),
            Err(e) => Err(e),
        }
    }
}

/// One or more comma-separated argument expressions followed by `)`. A token
/// that is neither comma nor `)` after an argument ends the list and `)` is
/// then required.
pub open spec fn sp_args_more(t: Seq<SpecToken>, i: nat) -> Result<
    (Seq<SpecExpr>, nat),
    SpecParseError,
>
    decreases t.len() - i, 4int,
    when i <= t.len()
{
    match sp_expression(t, i) {
        Err(e) => Err(e),
        Ok(r) => {
            let j = step_idx(i, r.1, t.len());
            if tok_at(t, j) == SpecToken::Comma {
                match sp_args_more(t, j + 1) {
                    Ok(r2) => Ok((seq![r.0] + r2.0, r2.1)),
                    Err(e) => Err(e),
                }
            } else if tok_at(t, j) == SpecToken::ParenR {
                Ok((seq![r.0], j + 1))
            } else {
                Err(SpecParseError::ExpectedToken(SpecToken::ParenR, tok_at(t, j)))
            }
        },
    }
}

/// An expression at `i`: a token that can begin one starts precedence
/// climbing at the lowest floor; any other token is rejected outright.
pub open spec fn sp_expression(t: Seq<SpecToken>, i: nat) -> Result<
    (SpecExpr, nat),
    SpecParseError,
>
    decreases t.len() - i, 3int,
    when i <= t.len()
{
    match tok_at(t, i) {
        SpecToken::LitNum(m, sc) => sp_binop(t, i, 0),
        SpecToken::LitStr(cs) => sp_binop(t, i, 0),
        SpecToken::Identifier(name) => sp_binop(t, i, 0),
        SpecToken::ParenL => sp_binop(t, i, 0),
        other => Err(SpecParseError::UnexpectedToken(other)),
    }
}

/// Precedence climbing at floor `min_prec`: one primary expression, then
/// `sp_binop_tail` folds in operators at or above the floor.
pub open spec fn sp_binop(t: Seq<SpecToken>, i: nat, min_prec: nat) -> Result<
    (SpecExpr, nat),
    SpecParseError,
>
    decreases t.len() - i, 1int,
    when i <= t.len()
{
    match sp_primary(t, i) {
        Err(e) => Err(e),
        Ok(r) => if i < t.len() {
            sp_binop_tail(t, step_idx(i, r.1, t.len()), min_prec, r.0)
        } else {
            // A primary expression never begins at `Eof`, so this branch is
            // unreachable; it only keeps the measure visibly in range.
            Ok((r.0, r.1))
        },
    }
}

/// The climbing loop: while the token at `i` is an operator at or above the
/// floor, consume it, parse its right-hand side one floor above the
/// operator's own precedence, and fold the pair into the left-hand side.
/// Climbing strictly above the operator keeps equal-precedence runs
/// left-associative while tighter operators nest to the right.
pub open spec fn sp_binop_tail(t: Seq<SpecToken>, i: nat, min_prec: nat, lhs: SpecExpr) -> Result<
    (SpecExpr, nat),
    SpecParseError,
>
    decreases t.len() - i, 2int,
    when i <= t.len()
{
    match applicable_op(tok_at(t, i), min_prec) {
        None => Ok((lhs, i)),
        Some(op) => match sp_binop(t, i + 1, op_prec(op) + 1) {
            Err(e) => Err(e),
            Ok(r) => sp_binop_tail(
                t,
                step_idx(i, r.1, t.len()),
                min_prec,
                SpecExpr::OpBinary(op, Box::new(lhs), Box::new(r.0)),
            ),
        },
    }
}

/// A variable declaration at `i`: `var` IDENT `;`, or `var` IDENT `=`
/// expression `;`. Without an initializer the variable is bound to the zero
/// numeric literal, never to an absent value.
pub open spec fn sp_vdecl(t: Seq<SpecToken>, i: nat) -> Result<(SpecStmt, nat), SpecParseError>
    decreases t.len() - i, 4int,
    when i <= t.len()
{
    if tok_at(t, i) != SpecToken::Var {
        Err(SpecParseError::ExpectedToken(SpecToken::Var, tok_at(t, i)))
    } else {
        match tok_at(t, i + 1) {
            SpecToken::Identifier(name) => if tok_at(t, i + 2) == SpecToken::Eq {
                match sp_expression(t, i + 3) {
                    Err(e) => Err(e),
                    Ok(r) => {
                        let j = step_idx(i + 2, r.1, t.len());
                        if tok_at(t, j) == SpecToken::Semicolon {
                            Ok((SpecStmt::VariableDecl(name, r.0), j + 1))
                        } else {
                            Err(
                                SpecParseError::ExpectedToken(
                                    SpecToken::Semicolon,
                                    tok_at(t, j),
                                ),
                            )
                        }
                    },
                }
            } else if tok_at(t, i + 2) == SpecToken::Semicolon {
                Ok((SpecStmt::VariableDecl(name, SpecExpr::LitNum(0, 0)), i + 3))
            } else {
                Err(SpecParseError::ExpectedToken(SpecToken::Semicolon, tok_at(t, i + 2)))
            },
            other => Err(SpecParseError::ExpectedVariableName(other)),
        }
    }
}

/// A parameter list standing before its closing `)`: identifiers, each
/// optionally followed by a comma. The `)` itself is left for the caller.
pub open spec fn sp_params(t: Seq<SpecToken>, i: nat) -> Result<
    (Seq<Seq<char>>, nat),
    SpecParseError,
>
    decreases t.len() - i, 0int,
    when i <= t.len()
{
    if tok_at(t, i) == SpecToken::ParenR {
        Ok((Seq::empty(), i))
    } else {
        match tok_at(t, i) {
            SpecToken::Identifier(name) => {
                let j = if tok_at(t, i + 1) == SpecToken::Comma {
                    i + 2
                } else {
                    i + 1
                };
                match sp_params(t, j) {
                    Ok(r) => Ok((seq![name] + r.0, r.1)),
                    Err(e) => Err(e),
                }
            },
            other => Err(SpecParseError::ExpectedParameterName(other)),
        }
    }
}

/// A function declaration at `i`: `func` IDENT `(` parameters `)` `{` block
/// `}`. The return-type slot stays the `Null` placeholder and the body is
/// the block as a program statement.
pub open spec fn sp_fdecl(t: Seq<SpecToken>, i: nat) -> Result<(SpecStmt, nat), SpecParseError>
    decreases t.len() - i, 4int,
    when i <= t.len()
{
    if tok_at(t, i) != SpecToken::Func {
        Err(SpecParseError::ExpectedToken(SpecToken::Func, tok_at(t, i)))
    } else {
        match tok_at(t, i + 1) {
            SpecToken::Identifier(name) => if tok_at(t, i + 2) == SpecToken::ParenL {
                match sp_params(t, i + 3) {
                    Err(e) => Err(e),
                    Ok(pr) => {
                        let j = hold_idx(i + 3, pr.1, t.len());
                        if tok_at(t, j) == SpecToken::ParenR {
                            if tok_at(t, j + 1) == SpecToken::BraceL {
                                match sp_block(t, j + 2) {
                                    Err(e) => Err(e),
                                    Ok(br) => {
                                        let k = hold_idx(j + 2, br.1, t.len());
                                        if tok_at(t, k) == SpecToken::BraceR {
                                            Ok(
                                                (
                                                    SpecStmt::FunctionDecl(
                                                        SpecExpr::Null,
                                                        name,
                                                        pr.0,
                                                        Box::new(SpecStmt::Program(br.0)),
                                                    ),
                                                    k + 1,
                                                ),
                                            )
                                        } else {
                                            Err(
                                                SpecParseError::ExpectedToken(
                                                    SpecToken::BraceR,
                                                    tok_at(t, k),
                                                ),
                                            )
                                        }
                                    },
                                }
                            } else {
                                Err(
                                    SpecParseError::ExpectedToken(
                                        SpecToken::BraceL,
                                        tok_at(t, j + 1),
                                    ),
                                )
                            }
                        } else {
                            Err(SpecParseError::ExpectedToken(SpecToken::ParenR, tok_at(t, j)))
                        }
                    },
                }
            } else {
                Err(SpecParseError::ExpectedToken(SpecToken::ParenL, tok_at(t, i + 2)))
            },
            other => Err(SpecParseError::ExpectedFunctionName(other)),
        }
    }
}

/// One statement at `i`, dispatched on the current token: `var` begins a
/// variable declaration, `func` a function declaration, anything else a bare
/// expression statement.
pub open spec fn sp_stmt(t: Seq<SpecToken>, i: nat) -> Result<(SpecStmt, nat), SpecParseError>
    decreases t.len() - i, 6int,
    when i <= t.len()
{
    match tok_at(t, i) {
        SpecToken::Var => sp_vdecl(t, i),
        SpecToken::Func => sp_fdecl(t, i),
        _ => match sp_expression(t, i) {
            Ok(r) => Ok((SpecStmt::Expr(r.0), r.1)),
            Err(e) => Err(e),
        },
    }
}

/// A maximal run of statements ending at `}` or end-of-input; a trailing
/// semicolon after a statement is consumed where present.
pub open spec fn sp_block(t: Seq<SpecToken>, i: nat) -> Result<
    (Seq<SpecStmt>, nat),
    SpecParseError,
>
    decreases t.len() - i, 7int,
    when i <= t.len()
{
    if tok_at(t, i) == SpecToken::BraceR || tok_at(t, i) == SpecToken::Eof {
        Ok((Seq::empty(), i))
    } else {
        match sp_stmt(t, i) {
            Err(e) => Err(e),
            Ok(r) => {
                let j0 = step_idx(i, r.1, t.len());
                let j = if tok_at(t, j0) == SpecToken::Semicolon {
                    j0 + 1
                } else {
                    j0
                };
                match sp_block(t, j) {
                    Ok(r2) => Ok((seq![r.0] + r2.0, r2.1)),
                    Err(e) => Err(e),
                }
            },
        }
    }
}

/// The statements of a whole program: as `sp_block`, but only end-of-input
/// ends the run, so a stray `}` is rejected by statement dispatch.
pub open spec fn sp_prog_list(t: Seq<SpecToken>, i: nat) -> Result<
    (Seq<SpecStmt>, nat),
    SpecParseError,
>
    decreases t.len() - i, 7int,
    when i <= t.len()
{
    if tok_at(t, i) == SpecToken::Eof {
        Ok((Seq::empty(), i))
    } else {
        match sp_stmt(t, i) {
            Err(e) => Err(e),
            Ok(r) => {
                let j0 = step_idx(i, r.1, t.len());
                let j = if tok_at(t, j0) == SpecToken::Semicolon {
                    j0 + 1
                } else {
                    j0
                };
                match sp_prog_list(t, j) {
                    Ok(r2) => Ok((seq![r.0] + r2.0, r2.1)),
                    Err(e) => Err(e),
                }
            },
        }
    }
}

/// A whole program at `i`: its statements gathered into the root program
/// node, or the first grammar violation met.
pub open spec fn sp_program(t: Seq<SpecToken>, i: nat) -> Result<(SpecStmt, nat), SpecParseError>
    decreases t.len() - i, 8int,
    when i <= t.len()
{
    match sp_prog_list(t, i) {
        Ok(r) => Ok((SpecStmt::Program(r.0), r.1)),
        Err(e) => Err(e),
    }
}

/// The tokens a parser at position `i` has not consumed yet, its lookahead
/// token excluded.
pub open spec fn rest_after(t: Seq<SpecToken>, i: nat) -> Seq<SpecToken> {
    if i + 1 <= t.len() {
        t.skip(i as int + 1)
    } else {
        Seq::empty()
    }
}

/// The parser: it owns the scanner, holds exactly one token of lookahead,
/// and builds the syntax tree that the mathematical parser names over the
/// scanner's token stream. The ghost fields carry that stream and the
/// parser's position in it.
pub struct Parser<'a> {
    lexer: Lexer<'a>,
    current_token: Token,
    toks: Ghost<Seq<SpecToken>>,
    idx: Ghost<nat>,
}

impl<'a> Parser<'a> {
    /// The token stream the parser consumes.
    pub closed spec fn stream(&self) -> Seq<SpecToken> {
        self.toks@
    }

    /// How many tokens of the stream stand before the lookahead token.
    pub closed spec fn cursor(&self) -> nat {
        self.idx@
    }

    /// The lookahead token is the stream's token at the parser's position,
    /// and the scanner holds exactly the tokens after it.
    pub closed spec fn wf(&self) -> bool {
        &&& self.lexer.wf()
        &&& self.idx@ <= self.toks@.len()
        &&& self.current_token@ == tok_at(self.toks@, self.idx@)
        &&& token_stream(self.lexer.src(), self.lexer.cursor()) == rest_after(
            self.toks@,
            self.idx@,
        )
    }

    /// How many tokens are left; every consumed token shrinks it.
    pub closed spec fn measure(&self) -> nat {
        (self.toks@.len() - self.idx@) as nat
    }

    /// A parser over the given scanner, with the first token already pulled.
    pub fn new(lexer: Lexer<'a>) -> (p: Parser<'a>)
        requires
            lexer.wf(),
        ensures
            p.wf(),
            p.stream() == token_stream(lexer.src(), lexer.cursor()),
            p.cursor() == 0,
    {
        let ghost stream = token_stream(lexer.src(), lexer.cursor());
        let mut p = Parser {
            lexer,
            current_token: Token::Eof,
            toks: Ghost(stream),
            idx: Ghost(0nat),
        };
        let ghost s = p.lexer.src();
        let ghost c0 = p.lexer.cursor();
        proof {
            p.lexer.lemma_wf_cursor();
            lemma_spec_next_bounds(s, c0);
        }
        let tk = p.lexer.next_token();
        p.current_token = tk;
        proof {
            let r = spec_next(s, c0);
            if r.0 == SpecToken::Eof {
                assert(stream =~= Seq::<SpecToken>::empty());
                assert(token_stream(s, r.1) =~= Seq::<SpecToken>::empty());
            } else {
                assert(stream == seq![r.0] + token_stream(s, r.1));
                assert(tok_at(stream, 0) == r.0);
                assert(rest_after(stream, 0) =~= token_stream(s, r.1));
            }
        }
        p
    }

    /// Pulls the next token from the scanner into the lookahead slot; the
    /// position moves forward by one.
    fn next_token(&mut self)
        requires
            old(self).wf(),
            old(self).current_token@ != SpecToken::Eof,
        ensures
            final(self).wf(),
            final(self).toks@ == old(self).toks@,
            final(self).idx@ == old(self).idx@ + 1,
    {
        let ghost s = self.lexer.src();
        let ghost c0 = self.lexer.cursor();
        let ghost t = self.toks@;
        let ghost i = self.idx@;
        proof {
            self.lexer.lemma_wf_cursor();
            lemma_spec_next_bounds(s, c0);
        }
        let tk = self.lexer.next_token();
        self.current_token = tk;
        self.idx = Ghost(i + 1);
        proof {
            let r = spec_next(s, c0);
            assert(i < t.len());
            assert(token_stream(s, c0) == t.skip(i as int + 1));
            if r.0 == SpecToken::Eof {
                assert(t.skip(i as int + 1) =~= Seq::<SpecToken>::empty());
                assert(i + 1 == t.len());
                assert(tok_at(t, i + 1) == SpecToken::Eof);
                lemma_spec_next_bounds(s, r.1);
                assert(token_stream(s, r.1) =~= Seq::<SpecToken>::empty());
            } else {
                assert(t.skip(i as int + 1) == seq![r.0] + token_stream(s, r.1));
                assert(t.skip(i as int + 1).len() >= 1);
                assert(i + 1 < t.len());
                assert(t[i as int + 1] == t.skip(i as int + 1)[0]);
                assert(tok_at(t, i + 1) == r.0);
                assert(token_stream(s, r.1) =~= t.skip(i as int + 2)) by {
                    assert(forall|k: int|
                        0 <= k < token_stream(s, r.1).len() ==> token_stream(s, r.1)[k] == t.skip(
                            i as int + 1,
                        )[k + 1]);
                }
                assert(rest_after(t, i + 1) == t.skip(i as int + 2));
            }
        }
    }

    /// Does the lookahead token structurally equal the given token? If not,
    /// the expectation failure names both.
    fn expect_token(&self, token: &Token) -> (r: Result<(), ParseError>)
        ensures
            r is Ok <==> self.current_token@ == token@,
            self.current_token@ != token@ ==> (r matches Err(e) && e@
                == SpecParseError::ExpectedToken(token@, self.current_token@)),
    {
        if token_eq(&self.current_token, token) {
            Ok(())
        } else {
            Err(ParseError::ExpectedToken(token_clone(token), token_clone(&self.current_token)))
        }
    }

    /// Requires the lookahead token to equal the given token and moves past
    /// it; otherwise reports the expectation failure and stands still.
    fn consume(&mut self, token: &Token) -> (r: Result<(), ParseError>)
        requires
            old(self).wf(),
            token@ != SpecToken::Eof,
        ensures
            final(self).wf(),
            final(self).toks@ == old(self).toks@,
            old(self).current_token@ == token@ ==> r is Ok && final(self).idx@ == old(self).idx@
                + 1,
            old(self).current_token@ != token@ ==> (r matches Err(e) && e@
                == SpecParseError::ExpectedToken(token@, old(self).current_token@) && *final(self)
                == *old(self)),
    {
        match self.expect_token(token) {
            Ok(()) => {
                self.next_token();
                Ok(())
            },
            Err(e) => Err(e),
        }
    }

    /// The operator the lookahead token offers at the given precedence
    /// floor.
    fn current_op(&self, min_prec: u8) -> (r: Option<Operation>)
        ensures
            r == applicable_op(self.current_token@, min_prec as nat),
    {
        match self.current_token {
            Token::Plus => if min_prec <= 1 {
                Some(Operation::Add)
            } else {
                None
            },
            Token::Minus => if min_prec <= 1 {
                Some(Operation::Sub)
            } else {
                None
            },
            Token::Star => if min_prec <= 2 {
                Some(Operation::Mul)
            } else {
                None
            },
            Token::Slash => if min_prec <= 2 {
                Some(Operation::Div)
            } else {
                None
            },
            _ => None,
        }
    }

    /// The binding strength of an operator.
    fn precedence(&self, op: Operation) -> (r: u8)
        ensures
            r as nat == op_prec(op),
    {
        match op {
            Operation::Add => 1,
            Operation::Sub => 1,
            Operation::Mul => 2,
            Operation::Div => 2,
        }
    }

    /// One primary expression: exactly what `sp_primary` names at the
    /// parser's position, or exactly the error it names.
    fn parse_primary_expr(&mut self) -> (r: Result<Expr, ParseError>)
        requires
            old(self).wf(),
        ensures
            final(self).wf(),
            final(self).toks@ == old(self).toks@,
            ({
                let res = sp_primary(old(self).toks@, old(self).idx@);
                match res {
                    Ok(pr) => r matches Ok(e) && e@ == pr.0 && final(self).idx@ == pr.1 && old(
                        self,
                    ).idx@ < pr.1,
                    Err(pe) => r matches Err(e2) && e2@ == pe,
                }
            }),
        decreases old(self).measure(), 0int,
    {
        let ghost t = self.toks@;
        let ghost i0 = self.idx@;
        let tok = token_clone(&self.current_token);
        match tok {
            Token::LitNum(n) => {
                self.next_token();
                Ok(Expr::LitNum(n))
            },
            Token::LitStr(s) => {
                self.next_token();
                Ok(Expr::LitStr(s))
            },
            Token::Identifier(id) => {
                self.next_token();
                if token_eq(&self.current_token, &Token::ParenL) {
                    self.parse_function_call_expr(id)
                } else {
                    Ok(Expr::Variable(id))
                }
            },
            Token::ParenL => {
                self.next_token();
                match self.parse_expression() {
                    Err(e) => Err(e),
                    Ok(e) => match self.consume(&Token::ParenR) {
                        Err(e2) => Err(e2),
                        Ok(()) => Ok(e),
                    },
                }
            },
            _ => Err(ParseError::UnexpectedToken(tok)),
        }
    }

    /// The argument list of a call to `name`, the lookahead standing on the
    /// opening `(`: exactly the call expression `sp_call_args` names just
    /// past that `(`.
    #[verifier::loop_isolation(false)]
    fn parse_function_call_expr(&mut self, name: String) -> (r: Result<Expr, ParseError>)
        requires
            old(self).wf(),
            old(self).current_token@ == SpecToken::ParenL,
        ensures
            final(self).wf(),
            final(self).toks@ == old(self).toks@,
            ({
                let res = sp_call_args(old(self).toks@, old(self).idx@ + 1, name@);
                match res {
                    Ok(pr) => r matches Ok(e) && e@ == pr.0 && final(self).idx@ == pr.1 && old(
                        self,
                    ).idx@ < pr.1,
                    Err(pe) => r matches Err(e2) && e2@ == pe,
                }
            }),
        decreases old(self).measure(), 5int,
    {
        let ghost t = self.toks@;
        let ghost i0 = self.idx@;
        match self.consume(&Token::ParenL) {
            Ok(()) => {},
            Err(e) => {
                return Err(e);
            },
        }
        let ghost astart = self.idx@;
        let mut args: Vec<Expr> = Vec::new();
        proof {
            crate::common::lemma_exprs_view(args);
            assert(exprs_view(args) =~= Seq::<SpecExpr>::empty());
        }
        if token_eq(&self.current_token, &Token::ParenR) {
            self.next_token();
            return Ok(Expr::FunctionCall(name, args));
        }
        loop
            invariant
                self.wf(),
                self.toks@ == t,
                astart == i0 + 1,
                i0 < self.idx@ <= t.len(),
                ({
                    match sp_args_more(t, self.idx@) {
                        Ok(r2) => sp_call_args(t, astart, name@) == Ok::<
                            (SpecExpr, nat),
                            SpecParseError,
                        >((SpecExpr::FunctionCall(name@, exprs_view(args) + r2.0), r2.1)),
                        Err(e) => sp_call_args(t, astart, name@) == Err::<
                            (SpecExpr, nat),
                            SpecParseError,
                        >(e),
                    }
                }),
            decreases self.measure(),
        {
            let ghost ia = self.idx@;
            let ghost args0 = args;
            let e = match self.parse_expression() {
                Err(err) => {
                    return Err(err);
                },
                Ok(e) => e,
            };
            let ghost ev = e@;
            args.push(e);
            proof {
                crate::common::lemma_exprs_view_push(args0, args@.last(), args);
            }
            if token_eq(&self.current_token, &Token::Comma) {
                self.next_token();
                proof {
                    assert forall|xs: Seq<SpecExpr>|
                        exprs_view(args0).push(ev) + xs =~= exprs_view(args0) + (seq![ev]
                            + xs) by {}
                }
            } else if token_eq(&self.current_token, &Token::ParenR) {
                self.next_token();
                proof {
                    assert(exprs_view(args0) + seq![ev] =~= exprs_view(args0).push(ev));
                }
                return Ok(Expr::FunctionCall(name, args));
            } else {
                return Err(
                    ParseError::ExpectedToken(Token::ParenR, token_clone(&self.current_token)),
                );
            }
        }
    }

    /// Precedence climbing from the floor `min_prec`: exactly what
    /// `sp_binop` names at the parser's position.
    #[verifier::loop_isolation(false)]
    fn parse_binop_expr(&mut self, min_prec: u8) -> (r: Result<Expr, ParseError>)
        requires
            old(self).wf(),
        ensures
            final(self).wf(),
            final(self).toks@ == old(self).toks@,
            ({
                let res = sp_binop(old(self).toks@, old(self).idx@, min_prec as nat);
                match res {
                    Ok(pr) => r matches Ok(e) && e@ == pr.0 && final(self).idx@ == pr.1 && old(
                        self,
                    ).idx@ < pr.1,
                    Err(pe) => r matches Err(e2) && e2@ == pe,
                }
            }),
        decreases old(self).measure(), 1int,
    {
        let ghost t = self.toks@;
        let ghost i0 = self.idx@;
        let mut lhs = match self.parse_primary_expr() {
            Err(e) => {
                return Err(e);
            },
            Ok(e) => e,
        };
        loop
            invariant
                self.wf(),
                self.toks@ == t,
                i0 < self.idx@ <= t.len(),
                sp_binop(t, i0, min_prec as nat) == sp_binop_tail(
                    t,
                    self.idx@,
                    min_prec as nat,
                    lhs@,
                ),
            decreases self.measure(),
        {
            let opo = self.current_op(min_prec);
            match opo {
                None => {
                    return Ok(lhs);
                },
                Some(op) => {
                    self.next_token();
                    let prec = self.precedence(op);
                    let rhs = match self.parse_binop_expr(prec + 1) {
                        Err(e) => {
                            return Err(e);
                        },
                        Ok(e) => e,
                    };
                    lhs = Expr::OpBinary(op, Box::new(lhs), Box::new(rhs));
                },
            }
        }
    }

    /// One expression: a token that can begin one starts precedence climbing
    /// at the lowest floor; any other token is an unexpected-token failure.
    fn parse_expression(&mut self) -> (r: Result<Expr, ParseError>)
        requires
            old(self).wf(),
        ensures
            final(self).wf(),
            final(self).toks@ == old(self).toks@,
            ({
                let res = sp_expression(old(self).toks@, old(self).idx@);
                match res {
                    Ok(pr) => r matches Ok(e) && e@ == pr.0 && final(self).idx@ == pr.1 && old(
                        self,
                    ).idx@ < pr.1,
                    Err(pe) => r matches Err(e2) && e2@ == pe,
                }
            }),
        decreases old(self).measure(), 3int,
    {
        let starts = (matches!(
            &self.current_token,
            Token::LitNum(_) | Token::LitStr(_) | Token::Identifier(_) | Token::ParenL
        ));
        if starts {
            self.parse_binop_expr(0)
        } else {
            Err(ParseError::UnexpectedToken(token_clone(&self.current_token)))
        }
    }

    /// One statement, dispatched on the lookahead token: exactly what
    /// `sp_stmt` names at the parser's position.
    fn parse_statement(&mut self) -> (r: Result<Stmt, ParseError>)
        requires
            old(self).wf(),
        ensures
            final(self).wf(),
            final(self).toks@ == old(self).toks@,
            ({
                let res = sp_stmt(old(self).toks@, old(self).idx@);
                match res {
                    Ok(pr) => r matches Ok(st) && st@ == pr.0 && final(self).idx@ == pr.1 && old(
                        self,
                    ).idx@ < pr.1,
                    Err(pe) => r matches Err(e2) && e2@ == pe,
                }
            }),
        decreases old(self).measure(), 6int,
    {
        if token_eq(&self.current_token, &Token::Var) {
            self.parse_variable_decl()
        } else if token_eq(&self.current_token, &Token::Func) {
            self.parse_function_decl()
        } else {
            match self.parse_expression() {
                Ok(e) => Ok(Stmt::Expr(e)),
                Err(e) => Err(e),
            }
        }
    }

    /// A variable declaration: `var` IDENT `;` or `var` IDENT `=` expression
    /// `;`, with the zero numeric literal standing in for a missing
    /// initializer — exactly what `sp_vdecl` names.
    fn parse_variable_decl(&mut self) -> (r: Result<Stmt, ParseError>)
        requires
            old(self).wf(),
        ensures
            final(self).wf(),
            final(self).toks@ == old(self).toks@,
            ({
                let res = sp_vdecl(old(self).toks@, old(self).idx@);
                match res {
                    Ok(pr) => r matches Ok(st) && st@ == pr.0 && final(self).idx@ == pr.1 && old(
                        self,
                    ).idx@ < pr.1,
                    Err(pe) => r matches Err(e2) && e2@ == pe,
                }
            }),
        decreases old(self).measure(), 4int,
    {
        let ghost t = self.toks@;
        let ghost i0 = self.idx@;
        match self.consume(&Token::Var) {
            Ok(()) => {},
            Err(e) => {
                return Err(e);
            },
        }
        let name = match &self.current_token {
            Token::Identifier(id) => id.clone(),
            _ => {
                return Err(ParseError::ExpectedVariableName(token_clone(&self.current_token)));
            },
        };
        self.next_token();
        if token_eq(&self.current_token, &Token::Eq) {
            self.next_token();
            let init = match self.parse_expression() {
                Err(e) => {
                    return Err(e);
                },
                Ok(e) => e,
            };
            match self.consume(&Token::Semicolon) {
                Err(e) => {
                    return Err(e);
                },
                Ok(()) => {},
            }
            Ok(Stmt::VariableDecl(name, init))
        } else {
            match self.consume(&Token::Semicolon) {
                Err(e) => {
                    return Err(e);
                },
                Ok(()) => {},
            }
            Ok(Stmt::VariableDecl(name, Expr::LitNum(NumValue { mantissa: 0, scale: 0 })))
        }
    }

    /// A function declaration: `func` IDENT `(` parameters `)` `{` block
    /// `}`, the return-type slot left as the `Null` placeholder — exactly
    /// what `sp_fdecl` names.
    #[verifier::loop_isolation(false)]
    fn parse_function_decl(&mut self) -> (r: Result<Stmt, ParseError>)
        requires
            old(self).wf(),
        ensures
            final(self).wf(),
            final(self).toks@ == old(self).toks@,
            ({
                let res = sp_fdecl(old(self).toks@, old(self).idx@);
                match res {
                    Ok(pr) => r matches Ok(st) && st@ == pr.0 && final(self).idx@ == pr.1 && old(
                        self,
                    ).idx@ < pr.1,
                    Err(pe) => r matches Err(e2) && e2@ == pe,
                }
            }),
        decreases old(self).measure(), 4int,
    {
        let ghost t = self.toks@;
        let ghost i0 = self.idx@;
        match self.consume(&Token::Func) {
            Ok(()) => {},
            Err(e) => {
                return Err(e);
            },
        }
        let name = match &self.current_token {
            Token::Identifier(id) => id.clone(),
            _ => {
                return Err(ParseError::ExpectedFunctionName(token_clone(&self.current_token)));
            },
        };
        self.next_token();
        match self.consume(&Token::ParenL) {
            Err(e) => {
                return Err(e);
            },
            Ok(()) => {},
        }
        let ghost pstart = self.idx@;
        let mut params: Vec<String> = Vec::new();
        proof {
            assert(names_view(params) =~= Seq::<Seq<char>>::empty());
        }
        loop
            invariant
                self.wf(),
                self.toks@ == t,
                pstart == i0 + 3,
                pstart <= self.idx@ <= t.len(),
                ({
                    match sp_params(t, self.idx@) {
                        Ok(r2) => sp_params(t, pstart) == Ok::<(Seq<Seq<char>>, nat), SpecParseError>(
                            (names_view(params) + r2.0, r2.1),
                        ),
                        Err(e) => sp_params(t, pstart) == Err::<(Seq<Seq<char>>, nat), SpecParseError>(
                            e,
                        ),
                    }
                }),
            decreases self.measure(),
        {
            if token_eq(&self.current_token, &Token::ParenR) {
                break;
            }
            let pname = match &self.current_token {
                Token::Identifier(id) => id.clone(),
                _ => {
                    return Err(
                        ParseError::ExpectedParameterName(token_clone(&self.current_token)),
                    );
                },
            };
            let ghost params0 = params;
            let ghost pv = pname@;
            self.next_token();
            params.push(pname);
            proof {
                crate::common::lemma_names_view_push(params0, params@.last(), params);
            }
            if token_eq(&self.current_token, &Token::Comma) {
                self.next_token();
            }
            proof {
                assert forall|xs: Seq<Seq<char>>|
                    names_view(params0).push(pv) + xs =~= names_view(params0) + (seq![pv]
                        + xs) by {}
            }
        }
        proof {
            assert(names_view(params) + Seq::<Seq<char>>::empty() =~= names_view(params));
        }
        match self.consume(&Token::ParenR) {
            Err(e) => {
                return Err(e);
            },
            Ok(()) => {},
        }
        match self.consume(&Token::BraceL) {
            Err(e) => {
                return Err(e);
            },
            Ok(()) => {},
        }
        let body = match self.parse_block() {
            Err(e) => {
                return Err(e);
            },
            Ok(b) => b,
        };
        match self.consume(&Token::BraceR) {
            Err(e) => {
                return Err(e);
            },
            Ok(()) => {},
        }
        Ok(Stmt::FunctionDecl(Expr::Null, name, params, Box::new(body)))
    }

    /// A maximal run of statements up to `}` or end-of-input, wrapped as a
    /// program node; a trailing semicolon after a statement is consumed —
    /// exactly what `sp_block` names.
    #[verifier::loop_isolation(false)]
    fn parse_block(&mut self) -> (r: Result<Stmt, ParseError>)
        requires
            old(self).wf(),
        ensures
            final(self).wf(),
            final(self).toks@ == old(self).toks@,
            ({
                let res = sp_block(old(self).toks@, old(self).idx@);
                match res {
                    Ok(pr) => r matches Ok(st) && st@ == SpecStmt::Program(pr.0) && final(self).idx@ == pr.1 && old(self).idx@ <= pr.1,
                    Err(pe) => r matches Err(e2) && e2@ == pe,
                }
            }),
        decreases old(self).measure(), 7int,
    {
        let ghost t = self.toks@;
        let ghost i0 = self.idx@;
        let mut stmts: Vec<Stmt> = Vec::new();
        proof {
            crate::common::lemma_stmts_view(stmts);
            assert(stmts_view(stmts) =~= Seq::<SpecStmt>::empty());
        }
        loop
            invariant
                self.wf(),
                self.toks@ == t,
                i0 <= self.idx@ <= t.len(),
                ({
                    match sp_block(t, self.idx@) {
                        Ok(r2) => sp_block(t, i0) == Ok::<(Seq<SpecStmt>, nat), SpecParseError>(
                            (stmts_view(stmts) + r2.0, r2.1),
                        ),
                        Err(e) => sp_block(t, i0) == Err::<(Seq<SpecStmt>, nat), SpecParseError>(e),
                    }
                }),
            decreases self.measure(),
        {
            if token_eq(&self.current_token, &Token::BraceR) || token_eq(
                &self.current_token,
                &Token::Eof,
            ) {
                break;
            }
            let ghost stmts0 = stmts;
            let s = match self.parse_statement() {
                Err(e) => {
                    return Err(e);
                },
                Ok(s) => s,
            };
            let ghost sv = s@;
            stmts.push(s);
            proof {
                crate::common::lemma_stmts_view_push(stmts0, stmts@.last(), stmts);
            }
            if token_eq(&self.current_token, &Token::Semicolon) {
                self.next_token();
            }
            proof {
                assert forall|xs: Seq<SpecStmt>|
                    stmts_view(stmts0).push(sv) + xs =~= stmts_view(stmts0) + (seq![sv]
                        + xs) by {}
            }
        }
        proof {
            assert(stmts_view(stmts) + Seq::<SpecStmt>::empty() =~= stmts_view(stmts));
        }
        Ok(Stmt::Program(stmts))
    }

    /// The whole program: statements dispatched until end-of-input, gathered
    /// in source order into the root program node. The tree returned is
    /// exactly the one `sp_program` names over the parser's token stream; a
    /// grammar violation returns exactly the error it names, with no partial
    /// tree.
    #[verifier::loop_isolation(false)]
    pub fn parse(&mut self) -> (r: Result<Stmt, ParseError>)
        requires
            old(self).wf(),
        ensures
            final(self).wf(),
            final(self).stream() == old(self).stream(),
            ({
                let res = sp_program(old(self).stream(), old(self).cursor());
                match res {
                    Ok(pr) => r matches Ok(st) && st@ == pr.0 && final(self).cursor() == pr.1,
                    Err(pe) => r matches Err(e2) && e2@ == pe,
                }
            }),
    {
        let ghost t = self.toks@;
        let ghost i0 = self.idx@;
        let mut stmts: Vec<Stmt> = Vec::new();
        proof {
            crate::common::lemma_stmts_view(stmts);
            assert(stmts_view(stmts) =~= Seq::<SpecStmt>::empty());
        }
        loop
            invariant
                self.wf(),
                self.toks@ == t,
                i0 <= self.idx@ <= t.len(),
                ({
                    match sp_prog_list(t, self.idx@) {
                        Ok(r2) => sp_prog_list(t, i0) == Ok::<(Seq<SpecStmt>, nat), SpecParseError>(
                            (stmts_view(stmts) + r2.0, r2.1),
                        ),
                        Err(e) => sp_prog_list(t, i0) == Err::<
                            (Seq<SpecStmt>, nat),
                            SpecParseError,
                        >(e),
                    }
                }),
            decreases self.measure(),
        {
            if token_eq(&self.current_token, &Token::Eof) {
                break;
            }
            let ghost stmts0 = stmts;
            let s = match self.parse_statement() {
                Err(e) => {
                    return Err(e);
                },
                Ok(s) => s,
            };
            let ghost sv = s@;
            stmts.push(s);
            proof {
                crate::common::lemma_stmts_view_push(stmts0, stmts@.last(), stmts);
            }
            if token_eq(&self.current_token, &Token::Semicolon) {
                self.next_token();
            }
            proof {
                assert forall|xs: Seq<SpecStmt>|
                    stmts_view(stmts0).push(sv) + xs =~= stmts_view(stmts0) + (seq![sv]
                        + xs) by {}
            }
        }
        proof {
            assert(stmts_view(stmts) + Seq::<SpecStmt>::empty() =~= stmts_view(stmts));
        }
        Ok(Stmt::Program(stmts))
    }
}

} // verus!
