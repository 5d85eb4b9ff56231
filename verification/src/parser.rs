use vstd::prelude::*;
use crate::ast::{BinaryOp, Expr, Param, Program, Stmt, TypeExpr, UnaryOp};
use crate::grammar::{
    Parsed, array_expr, block_expr, if_result, lemma_if_cond, lemma_if_else, lemma_if_then_err, parses_else, call_expr, fn_stmt, join, kind_is, object_expr, parses_array, parses_block,
    parses_block_body, parses_call, parses_elems, parses_expr, parses_fn, parses_if, parses_index, parses_infix,
    parses_let, parses_object, parses_params, parses_postfix, parses_prefix, parses_program, parses_props,
    parses_return, parses_seq, parses_type, parses_type_args, unary_result,
};
use crate::lexer::{Token, TokenKind};
use crate::semantics::through;
use crate::span::Span;
use crate::text::string_append;

verus! {

/// An error of the parser: what was expected, at the span of the offending token or expression.
#[derive(Debug)]
pub struct ParseError {
    pub message: String,
    pub span: Span,
}

// ---------------------------------------------------------------------------
// The shape of a parsed program.
// ---------------------------------------------------------------------------

/// An expression that may stand on the left of `=`.
pub open spec fn assignable(e: Expr) -> bool {
    e is Ident || e is Index
}

/// Every assignment inside `e` has an assignable target, and no function is declared inside
/// a block.
pub open spec fn expr_wf(e: Expr) -> bool
    decreases e,
{
    match e {
        Expr::Array { elements, .. } => exprs_wf(elements@),
        Expr::Object { props, .. } => props_wf(props@),
        Expr::Block { stmts, tail, .. } => stmts_wf(stmts@, false) && match tail {
            Some(t) => expr_wf(*t),
            None => true,
        },
        Expr::If { cond, then_branch, else_branch, .. } => expr_wf(*cond) && expr_wf(*then_branch)
            && expr_wf(*else_branch),
        Expr::Unary { expr, .. } => expr_wf(*expr),
        Expr::Binary { lhs, rhs, .. } => expr_wf(*lhs) && expr_wf(*rhs),
        Expr::Call { callee, args, .. } => expr_wf(*callee) && exprs_wf(args@),
        Expr::Index { target, index, .. } => expr_wf(*target) && expr_wf(*index),
        Expr::Group { expr, .. } => expr_wf(*expr),
        _ => true,
    }
}

pub open spec fn exprs_wf(s: Seq<Expr>) -> bool
    decreases s,
{
    if s.len() == 0 {
        true
    } else {
        exprs_wf(s.drop_last()) && expr_wf(s.last())
    }
}

pub open spec fn props_wf(s: Seq<(String, Expr)>) -> bool
    decreases s,
{
    if s.len() == 0 {
        true
    } else {
        props_wf(s.drop_last()) && expr_wf(s.last().1)
    }
}

/// A statement is well formed; `top` says whether it stands at the top level of the program,
/// the only place where a function may be declared.
pub open spec fn stmt_wf(s: Stmt, top: bool) -> bool
    decreases s,
{
    match s {
        Stmt::Let { expr, .. } => expr_wf(expr),
        Stmt::Assign { target, expr, .. } => assignable(target) && expr_wf(target) && expr_wf(expr),
        Stmt::Return { expr, .. } => match expr {
            Some(e) => expr_wf(e),
            None => true,
        },
        Stmt::Fn { body, .. } => top && body is Block && expr_wf(body),
        Stmt::Expr { expr, .. } => expr_wf(expr),
    }
}

pub open spec fn stmts_wf(s: Seq<Stmt>, top: bool) -> bool
    decreases s,
{
    if s.len() == 0 {
        true
    } else {
        stmts_wf(s.drop_last(), top) && stmt_wf(s.last(), top)
    }
}

pub open spec fn opt_expr_wf(e: Option<Expr>) -> bool {
    match e {
        Some(x) => expr_wf(x),
        None => true,
    }
}

/// What the parser produces: top-level statements and tail, all well formed.
pub open spec fn program_wf(p: Program) -> bool {
    stmts_wf(p.stmts@, true) && opt_expr_wf(p.tail)
}

/// The binary operator a token stands for, with its binding power.
pub open spec fn infix_of(k: TokenKind) -> Option<(BinaryOp, u8)> {
    match k {
        TokenKind::OrOr => Some((BinaryOp::Or, 1u8)),
        TokenKind::AndAnd => Some((BinaryOp::And, 2u8)),
        TokenKind::EqualEqual => Some((BinaryOp::Eq, 3u8)),
        TokenKind::BangEqual => Some((BinaryOp::Ne, 3u8)),
        TokenKind::Less => Some((BinaryOp::Lt, 4u8)),
        TokenKind::LessEqual => Some((BinaryOp::Le, 4u8)),
        TokenKind::Greater => Some((BinaryOp::Gt, 4u8)),
        TokenKind::GreaterEqual => Some((BinaryOp::Ge, 4u8)),
        TokenKind::Plus => Some((BinaryOp::Add, 5u8)),
        TokenKind::Minus => Some((BinaryOp::Sub, 5u8)),
        TokenKind::Star => Some((BinaryOp::Mul, 6u8)),
        TokenKind::Slash => Some((BinaryOp::Div, 6u8)),
        TokenKind::Percent => Some((BinaryOp::Mod, 6u8)),
        _ => None,
    }
}

/// How tightly the binary operators bind. `*`, `/` and `%` bind tighter than `+` and `-`,
/// which bind alike; then come the comparisons `<`, `<=`, `>`, `>=`, which bind alike; then
/// `==` and `!=`; then `&&`; loosest is `||`. Each operator token stands for its own
/// operator, and every other token for none.
pub proof fn lemma_operator_precedence()
    ensures
        infix_of(TokenKind::Plus) matches Some((op, _)) && op is Add,
        infix_of(TokenKind::Minus) matches Some((op, _)) && op is Sub,
        infix_of(TokenKind::Star) matches Some((op, _)) && op is Mul,
        infix_of(TokenKind::Slash) matches Some((op, _)) && op is Div,
        infix_of(TokenKind::Percent) matches Some((op, _)) && op is Mod,
        infix_of(TokenKind::Less) matches Some((op, _)) && op is Lt,
        infix_of(TokenKind::LessEqual) matches Some((op, _)) && op is Le,
        infix_of(TokenKind::Greater) matches Some((op, _)) && op is Gt,
        infix_of(TokenKind::GreaterEqual) matches Some((op, _)) && op is Ge,
        infix_of(TokenKind::EqualEqual) matches Some((op, _)) && op is Eq,
        infix_of(TokenKind::BangEqual) matches Some((op, _)) && op is Ne,
        infix_of(TokenKind::AndAnd) matches Some((op, _)) && op is And,
        infix_of(TokenKind::OrOr) matches Some((op, _)) && op is Or,
        ({
            let p = |k: TokenKind| infix_of(k)->Some_0.1;
            &&& p(TokenKind::Minus) == p(TokenKind::Plus)
            &&& p(TokenKind::Star) == p(TokenKind::Slash) && p(TokenKind::Slash) == p(TokenKind::Percent)
            &&& p(TokenKind::Plus) < p(TokenKind::Star)
            &&& p(TokenKind::Less) == p(TokenKind::LessEqual) && p(TokenKind::LessEqual) == p(TokenKind::Greater)
                && p(TokenKind::Greater) == p(TokenKind::GreaterEqual)
            &&& p(TokenKind::Less) < p(TokenKind::Plus)
            &&& p(TokenKind::EqualEqual) == p(TokenKind::BangEqual)
            &&& p(TokenKind::EqualEqual) < p(TokenKind::Less)
            &&& p(TokenKind::AndAnd) < p(TokenKind::EqualEqual)
            &&& p(TokenKind::OrOr) < p(TokenKind::AndAnd)
            &&& 0 < p(TokenKind::OrOr)
        }),
        forall|k: TokenKind| infix_of(k) is Some ==> (k is Plus || k is Minus || k is Star || k is Slash || k is Percent
            || k is Less || k is LessEqual || k is Greater || k is GreaterEqual || k is EqualEqual || k is BangEqual
            || k is AndAnd || k is OrOr),
{
}

/// A token kind that carries no text or number.
pub open spec fn is_plain(k: TokenKind) -> bool {
    !(k is Ident || k is Int || k is String)
}

proof fn lemma_exprs_push(s: Seq<Expr>, e: Expr)
    requires
        exprs_wf(s),
        expr_wf(e),
    ensures
        exprs_wf(s.push(e)),
{
    assert(s.push(e).drop_last() =~= s);
}

proof fn lemma_props_push(s: Seq<(String, Expr)>, p: (String, Expr))
    requires
        props_wf(s),
        expr_wf(p.1),
    ensures
        props_wf(s.push(p)),
{
    assert(s.push(p).drop_last() =~= s);
}

proof fn lemma_stmts_push(s: Seq<Stmt>, st: Stmt, top: bool)
    requires
        stmts_wf(s, top),
        stmt_wf(st, top),
    ensures
        stmts_wf(s.push(st), top),
{
    assert(s.push(st).drop_last() =~= s);
}

// ---------------------------------------------------------------------------
// The parser.
// ---------------------------------------------------------------------------

/// Where a sequence of statements ends.
#[derive(Debug, Copy, Clone)]
enum Terminator {
    Eof,
    RBrace,
}

/// A recursive-descent parser over a token list that ends with `Eof`.
pub struct Parser {
    tokens: Vec<Token>,
    pos: usize,
}

/// `k` is the token kind `Eof`.
pub open spec fn ends_with_eof(tokens: Seq<Token>) -> bool {
    tokens.len() > 0 && tokens.last().kind is Eof
}

fn error(message: &str, span: Span) -> (e: ParseError)
    ensures
        e.message@ == message@,
        e.span == span,
{
    let mut m = String::new();
    string_append(&mut m, message);
    ParseError { message: m, span }
}

/// `a` is the same kind as the plain kind `b`.
fn same_kind(a: &TokenKind, b: &TokenKind) -> (r: bool)
    requires
        is_plain(*b),
    ensures
        r == (*a == *b),
{
    match b {
        TokenKind::Let => matches!(a, TokenKind::Let),
        TokenKind::Fn => matches!(a, TokenKind::Fn),
        TokenKind::If => matches!(a, TokenKind::If),
        TokenKind::Else => matches!(a, TokenKind::Else),
        TokenKind::Return => matches!(a, TokenKind::Return),
        TokenKind::True => matches!(a, TokenKind::True),
        TokenKind::False => matches!(a, TokenKind::False),
        TokenKind::Plus => matches!(a, TokenKind::Plus),
        TokenKind::Minus => matches!(a, TokenKind::Minus),
        TokenKind::Star => matches!(a, TokenKind::Star),
        TokenKind::Slash => matches!(a, TokenKind::Slash),
        TokenKind::Percent => matches!(a, TokenKind::Percent),
        TokenKind::Bang => matches!(a, TokenKind::Bang),
        TokenKind::Equal => matches!(a, TokenKind::Equal),
        TokenKind::EqualEqual => matches!(a, TokenKind::EqualEqual),
        TokenKind::BangEqual => matches!(a, TokenKind::BangEqual),
        TokenKind::Less => matches!(a, TokenKind::Less),
        TokenKind::LessEqual => matches!(a, TokenKind::LessEqual),
        TokenKind::Greater => matches!(a, TokenKind::Greater),
        TokenKind::GreaterEqual => matches!(a, TokenKind::GreaterEqual),
        TokenKind::AndAnd => matches!(a, TokenKind::AndAnd),
        TokenKind::OrOr => matches!(a, TokenKind::OrOr),
        TokenKind::Arrow => matches!(a, TokenKind::Arrow),
        TokenKind::Colon => matches!(a, TokenKind::Colon),
        TokenKind::Comma => matches!(a, TokenKind::Comma),
        TokenKind::Semicolon => matches!(a, TokenKind::Semicolon),
        TokenKind::Hash => matches!(a, TokenKind::Hash),
        TokenKind::LParen => matches!(a, TokenKind::LParen),
        TokenKind::RParen => matches!(a, TokenKind::RParen),
        TokenKind::LBrace => matches!(a, TokenKind::LBrace),
        TokenKind::RBrace => matches!(a, TokenKind::RBrace),
        TokenKind::LBracket => matches!(a, TokenKind::LBracket),
        TokenKind::RBracket => matches!(a, TokenKind::RBracket),
        TokenKind::Eof => matches!(a, TokenKind::Eof),
        _ => false,
    }
}

/// `expr` may be the target of an assignment.
pub fn is_assignable(expr: &Expr) -> (r: bool)
    ensures
        r == assignable(*expr),
{
    matches!(expr, Expr::Ident(_, _) | Expr::Index { .. })
}

/// The token that closes a list of expressions: `)` for arguments, `]` for elements.
pub open spec fn closer(paren: bool) -> TokenKind {
    if paren {
        TokenKind::RParen
    } else {
        TokenKind::RBracket
    }
}

fn close_kind(paren: bool) -> (k: TokenKind)
    ensures
        k == closer(paren),
        is_plain(k),
        !(k is Eof),
{
    if paren {
        TokenKind::RParen
    } else {
        TokenKind::RBracket
    }
}

/// The outcome of a parse, with the position after it.
pub open spec fn parsed<T>(r: Result<T, ParseError>, pos: usize) -> Parsed<T> {
    match r {
        Ok(x) => Ok((x, pos as int)),
        Err(e) => Err((e.message@, e.span)),
    }
}

/// The outcome of parsing a sequence, with the statements and tail as values.
spec fn parsed_seq(r: Result<(Vec<Stmt>, Option<Expr>), ParseError>, pos: usize) -> Parsed<(Seq<Stmt>, Option<Expr>)> {
    match r {
        Ok((sts, tail)) => Ok(((sts@, tail), pos as int)),
        Err(e) => Err((e.message@, e.span)),
    }
}

/// A parse result as the grammar states it: the program, or the error's message and span.
pub open spec fn program_parsed(r: Result<Program, ParseError>) -> Result<Program, (Seq<char>, Span)> {
    match r {
        Ok(p) => Ok(p),
        Err(e) => Err((e.message@, e.span)),
    }
}

/// A token that is not `Eof` is not the last one of a token list that ends with `Eof`.
proof fn lemma_not_last(ts: Seq<Token>, p: int)
    requires
        ends_with_eof(ts),
        0 <= p < ts.len(),
    ensures
        !(ts[p].kind is Eof) ==> p + 1 < ts.len(),
{
}

impl Parser {
    /// The parser's tokens end with `Eof` and its position lies on one of them.
    pub closed spec fn wf(&self) -> bool {
        &&& ends_with_eof(self.tokens@)
        &&& self.pos < self.tokens@.len()
    }

    /// The tokens the parser reads.
    pub closed spec fn tokens_spec(&self) -> Seq<Token> {
        self.tokens@
    }

    /// The index of the next token.
    pub closed spec fn pos_spec(&self) -> int {
        self.pos as int
    }

    closed spec fn remaining(&self) -> int {
        self.tokens@.len() - self.pos
    }

    closed spec fn cur(&self) -> Token {
        self.tokens@[self.pos as int]
    }

    /// A parser at the first of `tokens`.
    pub fn new(tokens: Vec<Token>) -> (p: Parser)
        requires
            ends_with_eof(tokens@),
        ensures
            p.wf(),
            p.tokens_spec() == tokens@,
            p.pos_spec() == 0,
    {
        Parser { tokens, pos: 0 }
    }

    /// Parses a whole program: statements and a tail expression up to `Eof`.
    pub fn parse_program(self) -> (r: Result<Program, ParseError>)
        requires
            self.wf(),
        ensures
            r matches Ok(p) ==> program_wf(p),
            self.pos_spec() == 0 ==> parses_program(self.tokens_spec(), program_parsed(r)),
    {
        let mut p = self;
        let rs = p.parse_sequence(Terminator::Eof);
        proof {
            assert(through(parsed_seq(rs, p.pos), 0int));
        }
        let (stmts, tail) = match rs {
            Ok(x) => x,
            Err(e) => {
                return Err(e);
            },
        };
        Ok(Program::new(stmts, tail))
    }

    fn peek(&self) -> (t: &Token)
        requires
            self.wf(),
        ensures
            *t == self.cur(),
    {
        &self.tokens[self.pos]
    }

    /// The next token has the plain kind `k`.
    fn check(&self, k: TokenKind) -> (r: bool)
        requires
            self.wf(),
            is_plain(k),
        ensures
            r == (self.cur().kind == k),
    {
        same_kind(&self.peek().kind, &k)
    }

    /// Takes the next token; at `Eof` the position stays where it is.
    fn next(&mut self) -> (t: Token)
        requires
            old(self).wf(),
        ensures
            final(self).wf(),
            final(self).tokens@ == old(self).tokens@,
            t == old(self).cur(),
            t.kind is Eof ==> final(self).pos == old(self).pos,
            !(t.kind is Eof) ==> final(self).pos == old(self).pos + 1,
    {
        let tok = self.peek().copy();
        if !matches!(tok.kind, TokenKind::Eof) {
            let n = self.tokens.len();
            assert(self.pos + 1 < n);
            self.pos = self.pos + 1;
        }
        tok
    }

    fn is_eof(&self) -> (r: bool)
        requires
            self.wf(),
        ensures
            r == (self.cur().kind is Eof),
    {
        matches!(self.peek().kind, TokenKind::Eof)
    }

    fn at_terminator(&self, terminator: Terminator) -> (r: bool)
        requires
            self.wf(),
        ensures
            r == match terminator {
                Terminator::Eof => self.cur().kind is Eof,
                Terminator::RBrace => self.cur().kind is RBrace,
            },
    {
        match terminator {
            Terminator::Eof => self.is_eof(),
            Terminator::RBrace => matches!(self.peek().kind, TokenKind::RBrace),
        }
    }

    /// Takes the next token if it has the plain kind `k`.
    fn maybe(&mut self, k: TokenKind) -> (r: Option<Token>)
        requires
            old(self).wf(),
            is_plain(k),
            !(k is Eof),
        ensures
            final(self).wf(),
            final(self).tokens@ == old(self).tokens@,
            (old(self).cur().kind == k) ==> r == Some(old(self).cur()) && final(self).pos == old(
                self,
            ).pos + 1,
            (old(self).cur().kind != k) ==> r is None && final(self).pos == old(self).pos,
    {
        if self.check(k) {
            Some(self.next())
        } else {
            None
        }
    }

    /// Takes the next token, which must have the plain kind `k`; otherwise fails with
    /// `message` at that token.
    fn expect(&mut self, k: TokenKind, message: &str) -> (r: Result<Token, ParseError>)
        requires
            old(self).wf(),
            is_plain(k),
            !(k is Eof),
        ensures
            final(self).wf(),
            final(self).tokens@ == old(self).tokens@,
            r is Ok <==> old(self).cur().kind == k,
            r matches Ok(t) ==> t == old(self).cur() && final(self).pos == old(self).pos + 1,
            r matches Err(e) ==> final(self).pos == old(self).pos && e.message@ == message@
                && e.span == old(self).cur().span,
    {
        if self.check(k) {
            Ok(self.next())
        } else {
            Err(error(message, self.peek().span))
        }
    }

    /// The binary operator at the next token, with its binding power.
    fn peek_infix(&self) -> (r: Option<(BinaryOp, u8)>)
        requires
            self.wf(),
        ensures
            r == infix_of(self.cur().kind),
    {
        match &self.peek().kind {
            TokenKind::OrOr => Some((BinaryOp::Or, 1)),
            TokenKind::AndAnd => Some((BinaryOp::And, 2)),
            TokenKind::EqualEqual => Some((BinaryOp::Eq, 3)),
            TokenKind::BangEqual => Some((BinaryOp::Ne, 3)),
            TokenKind::Less => Some((BinaryOp::Lt, 4)),
            TokenKind::LessEqual => Some((BinaryOp::Le, 4)),
            TokenKind::Greater => Some((BinaryOp::Gt, 4)),
            TokenKind::GreaterEqual => Some((BinaryOp::Ge, 4)),
            TokenKind::Plus => Some((BinaryOp::Add, 5)),
            TokenKind::Minus => Some((BinaryOp::Sub, 5)),
            TokenKind::Star => Some((BinaryOp::Mul, 6)),
            TokenKind::Slash => Some((BinaryOp::Div, 6)),
            TokenKind::Percent => Some((BinaryOp::Mod, 6)),
            _ => None,
        }
    }

    /// `let name (: Type)? = expr ;`
    fn parse_let_stmt(&mut self) -> (r: Result<Stmt, ParseError>)
        requires
            old(self).wf(),
            old(self).cur().kind is Let,
        ensures
            final(self).wf(),
            final(self).tokens@ == old(self).tokens@,
            final(self).pos >= old(self).pos,
            r is Ok ==> final(self).pos > old(self).pos,
            r matches Ok(s) ==> stmt_wf(s, false) && s is Let,
            parses_let(old(self).tokens@, old(self).pos as int, parsed(r, final(self).pos)),
        decreases old(self).remaining(), 3nat,
    {
        let ghost ts = self.tokens@;
        let ghost p0 = self.pos as int;
        proof {
            lemma_not_last(ts, p0);
        }
        let let_tok = match self.expect(TokenKind::Let, "expected 'let'") {
            Ok(t) => t,
            Err(e) => {
                return Err(e);
            },
        };
        proof {
            lemma_not_last(ts, p0 + 1);
        }
        let name_tok = self.next();
        let name = match name_tok.kind {
            TokenKind::Ident(s) => s,
            _ => {
                return Err(error("expected identifier after 'let'", name_tok.span));
            },
        };
        let ty = if self.maybe(TokenKind::Colon).is_some() {
            proof {
                lemma_not_last(ts, p0 + 2);
            }
            let rt = self.parse_type();
            proof {
                assert(through(parsed(rt, self.pos), p0));
            }
            match rt {
                Ok(t) => Some(t),
                Err(e) => {
                    proof {
                        assert(through(Err::<(Option<TypeExpr>, int), (Seq<char>, Span)>((e.message@, e.span)), p0));
                    }
                    return Err(e);
                },
            }
        } else {
            None
        };
        let ghost q = self.pos as int;
        proof {
            assert(through(Ok::<(Option<TypeExpr>, int), (Seq<char>, Span)>((ty, q)), p0));
            lemma_not_last(ts, q);
        }
        match self.expect(TokenKind::Equal, "expected '=' after identifier") {
            Ok(_) => {},
            Err(e) => {
                return Err(e);
            },
        }
        let re = self.parse_expr(0);
        proof {
            assert(through(parsed(re, self.pos), q));
        }
        let expr = match re {
            Ok(x) => x,
            Err(e) => {
                return Err(e);
            },
        };
        match self.expect(TokenKind::Semicolon, "expected ';' after let statement") {
            Ok(_) => {},
            Err(e) => {
                return Err(e);
            },
        }
        let span = let_tok.span.merge(expr.span());
        Ok(Stmt::Let { name, ty, expr, span })
    }

    /// `return ;` or `return expr ;`
    fn parse_return_stmt(&mut self) -> (r: Result<Stmt, ParseError>)
        requires
            old(self).wf(),
            old(self).cur().kind is Return,
        ensures
            final(self).wf(),
            final(self).tokens@ == old(self).tokens@,
            final(self).pos >= old(self).pos,
            r is Ok ==> final(self).pos > old(self).pos,
            r matches Ok(s) ==> stmt_wf(s, false) && s is Return,
            parses_return(old(self).tokens@, old(self).pos as int, parsed(r, final(self).pos)),
        decreases old(self).remaining(), 3nat,
    {
        let ghost ts = self.tokens@;
        let ghost p0 = self.pos as int;
        proof {
            lemma_not_last(ts, p0);
        }
        let ret_tok = match self.expect(TokenKind::Return, "expected 'return'") {
            Ok(t) => t,
            Err(e) => {
                return Err(e);
            },
        };
        if let Some(semi) = self.maybe(TokenKind::Semicolon) {
            let span = ret_tok.span.merge(semi.span);
            return Ok(Stmt::Return { expr: None, span });
        }
        let re = self.parse_expr(0);
        proof {
            assert(through(parsed(re, self.pos), p0));
        }
        let expr = match re {
            Ok(x) => x,
            Err(e) => {
                return Err(e);
            },
        };
        let semi = match self.expect(TokenKind::Semicolon, "expected ';' after return") {
            Ok(t) => t,
            Err(e) => {
                return Err(e);
            },
        };
        let span = ret_tok.span.merge(semi.span);
        Ok(Stmt::Return { expr: Some(expr), span })
    }

    /// `fn name ( params ) -> Type { ... }`
    fn parse_fn_stmt(&mut self) -> (r: Result<Stmt, ParseError>)
        requires
            old(self).wf(),
            old(self).cur().kind is Fn,
        ensures
            final(self).wf(),
            final(self).tokens@ == old(self).tokens@,
            final(self).pos >= old(self).pos,
            r is Ok ==> final(self).pos > old(self).pos,
            r matches Ok(s) ==> stmt_wf(s, true) && s is Fn,
            parses_fn(old(self).tokens@, old(self).pos as int, parsed(r, final(self).pos)),
        decreases old(self).remaining(), 3nat,
    {
        let ghost ts = self.tokens@;
        let ghost p0 = self.pos as int;
        proof {
            lemma_not_last(ts, p0);
        }
        let fn_tok = match self.expect(TokenKind::Fn, "expected 'fn'") {
            Ok(t) => t,
            Err(e) => {
                return Err(e);
            },
        };
        proof {
            lemma_not_last(ts, p0 + 1);
        }
        let name_tok = self.next();
        let name = match name_tok.kind {
            TokenKind::Ident(s) => s,
            _ => {
                return Err(error("expected identifier after 'fn'", name_tok.span));
            },
        };
        proof {
            lemma_not_last(ts, p0 + 2);
        }
        match self.expect(TokenKind::LParen, "expected '(' after fn name") {
            Ok(_) => {},
            Err(e) => {
                return Err(e);
            },
        }
        let mut params: Vec<Param> = Vec::new();
        if !self.check(TokenKind::RParen) {
            let mut more = true;
            while more
                invariant
                    self.wf(),
                    self.tokens@ == ts,
                    ts == old(self).tokens@,
                    p0 == old(self).pos,
                    self.pos > p0 + 2,
                    p0 + 3 < ts.len(),
                    kind_is(ts, p0, TokenKind::Fn),
                    ts[p0 + 1].kind is Ident,
                    kind_is(ts, p0 + 2, TokenKind::LParen),
                    !kind_is(ts, p0 + 3, TokenKind::RParen),
                    more ==> forall|rr: Parsed<Seq<Param>>|
                        #[trigger] parses_params(ts, self.pos as int, params@, rr) ==> parses_params(
                            ts,
                            p0 + 3,
                            Seq::empty(),
                            rr,
                        ),
                    !more ==> parses_params(ts, p0 + 3, Seq::empty(), Ok((params@, self.pos as int))),
                decreases self.remaining(), if more { 1nat } else { 0nat },
            {
                let ghost pi = self.pos as int;
                let ghost acc = params@;
                proof {
                    lemma_not_last(ts, pi);
                }
                let param_name_tok = self.next();
                let param_name = match param_name_tok.kind {
                    TokenKind::Ident(s) => s,
                    _ => {
                        proof {
                            assert(parses_params(ts, pi, acc, Err(("expected parameter name"@, ts[pi].span))));
                            assert(through(Err::<(Seq<Param>, int), (Seq<char>, Span)>(("expected parameter name"@, ts[pi].span)), p0));
                        }
                        return Err(error("expected parameter name", param_name_tok.span));
                    },
                };
                match self.expect(TokenKind::Colon, "expected ':' after parameter name") {
                    Ok(_) => {},
                    Err(e) => {
                        proof {
                            assert(parses_params(ts, pi, acc, Err((e.message@, e.span))));
                            assert(through(Err::<(Seq<Param>, int), (Seq<char>, Span)>((e.message@, e.span)), p0));
                        }
                        return Err(e);
                    },
                }
                let rt = self.parse_type();
                proof {
                    assert(through(parsed(rt, self.pos), pi));
                }
                let ty = match rt {
                    Ok(t) => t,
                    Err(e) => {
                        proof {
                            assert(parses_params(ts, pi, acc, Err((e.message@, e.span))));
                            assert(through(Err::<(Seq<Param>, int), (Seq<char>, Span)>((e.message@, e.span)), p0));
                        }
                        return Err(e);
                    },
                };
                let ghost q = self.pos as int;
                let span = param_name_tok.span.merge(ty.span());
                params.push(Param { name: param_name, ty, span });
                proof {
                    lemma_not_last(ts, q);
                }
                if self.maybe(TokenKind::Comma).is_some() {
                    if self.check(TokenKind::RParen) {
                        more = false;
                        proof {
                            assert(parses_params(ts, pi, acc, Ok((params@, q + 1))));
                        }
                    } else {
                        proof {
                            assert forall|rr: Parsed<Seq<Param>>|
                                #[trigger] parses_params(ts, self.pos as int, params@, rr) implies parses_params(
                                    ts,
                                    p0 + 3,
                                    Seq::empty(),
                                    rr,
                                ) by {
                                assert(parses_params(ts, pi, acc, rr));
                            }
                        }
                    }
                } else {
                    more = false;
                    proof {
                        assert(parses_params(ts, pi, acc, Ok((params@, q))));
                    }
                }
            }
        }
        let ghost q = self.pos as int;
        proof {
            assert(through(Ok::<(Seq<Param>, int), (Seq<char>, Span)>((params@, q)), p0));
            lemma_not_last(ts, q);
        }
        match self.expect(TokenKind::RParen, "expected ')' after parameters") {
            Ok(_) => {},
            Err(e) => {
                return Err(e);
            },
        }
        proof {
            lemma_not_last(ts, q + 1);
        }
        match self.expect(TokenKind::Arrow, "expected '->' after parameters") {
            Ok(_) => {},
            Err(e) => {
                return Err(e);
            },
        }
        let rt = self.parse_type();
        proof {
            assert(through(parsed(rt, self.pos), q));
        }
        let ret_ty = match rt {
            Ok(t) => t,
            Err(e) => {
                return Err(e);
            },
        };
        let ghost q2 = self.pos as int;
        let rb = self.parse_block_expr();
        proof {
            assert(through(parsed(rb, self.pos), q2));
        }
        let body = match rb {
            Ok(b) => b,
            Err(e) => {
                proof {
                    assert(parses_type(ts, q + 2, Ok((ret_ty, q2))));
                    assert(parses_block(ts, q2, Err((e.message@, e.span))));
                }
                return Err(e);
            },
        };
        let span = fn_tok.span.merge(body.span());
        let ghost q3 = self.pos as int;
        let st = Stmt::Fn { name, params, ret_ty, body, span };
        proof {
            assert(fn_stmt(st, name, params@, ret_ty, body, join(ts[p0].span, body.span_of())));
            assert(parses_block(ts, q2, Ok((body, q3))));
            assert(parses_type(ts, q + 2, Ok((ret_ty, q2))));
        }
        Ok(st)
    }

    /// An expression whose binary operators all bind at least as tightly as `min_prec`.
    fn parse_expr(&mut self, min_prec: u8) -> (r: Result<Expr, ParseError>)
        requires
            old(self).wf(),
        ensures
            final(self).wf(),
            final(self).tokens@ == old(self).tokens@,
            final(self).pos >= old(self).pos,
            r is Ok ==> final(self).pos > old(self).pos,
            r matches Ok(e) ==> expr_wf(e),
            parses_expr(old(self).tokens@, old(self).pos as int, min_prec, parsed(r, final(self).pos)),
        decreases old(self).remaining(), 2nat,
    {
        let ghost ts = self.tokens@;
        let ghost p0 = self.pos as int;
        let r1 = self.parse_prefix();
        proof {
            assert(through(parsed(r1, self.pos), p0));
        }
        let lhs0 = match r1 {
            Ok(e) => e,
            Err(e) => {
                return Err(e);
            },
        };
        let ghost q0 = self.pos as int;
        let ghost e0 = lhs0;
        let r2 = self.parse_postfix(lhs0);
        proof {
            assert(through(parsed(r2, self.pos), q0));
        }
        let mut lhs = match r2 {
            Ok(e) => e,
            Err(e) => {
                return Err(e);
            },
        };
        let ghost q1 = self.pos as int;
        let ghost e1 = lhs;
        proof {
            assert forall|rr: Parsed<Expr>|
                #[trigger] parses_infix(ts, q1, min_prec, e1, rr) implies parses_expr(ts, p0, min_prec, rr) by {
                let g1 = Ok::<(Expr, int), (Seq<char>, Span)>((e0, q0));
                let g2 = Ok::<(Expr, int), (Seq<char>, Span)>((e1, q1));
                assert(through(g1, p0) && parses_prefix(ts, p0, g1));
                assert(through(g2, q0) && parses_postfix(ts, q0, e0, g2));
                assert(exists|r1b: Parsed<Expr>|
                    #[trigger] through(r1b, p0) && parses_prefix(ts, p0, r1b) && match r1b {
                        Ok((e0b, q0b)) => q0b > p0 && q0b < ts.len() && exists|r2b: Parsed<Expr>|
                            #[trigger] through(r2b, q0b) && parses_postfix(ts, q0b, e0b, r2b) && match r2b {
                                Ok((e1b, q1b)) => q1b >= q0b && q1b < ts.len() && parses_infix(ts, q1b, min_prec, e1b, rr),
                                Err(_) => false,
                            },
                        Err(_) => false,
                    });
            }
        }
        loop
            invariant_except_break
                self.wf(),
                self.tokens@ == ts,
                ts == old(self).tokens@,
                p0 == old(self).pos,
                self.pos > old(self).pos,
                expr_wf(lhs),
                forall|rr: Parsed<Expr>|
                    #[trigger] parses_infix(ts, self.pos as int, min_prec, lhs, rr) ==> parses_expr(
                        ts,
                        p0,
                        min_prec,
                        rr,
                    ),
            ensures
                self.wf(),
                self.tokens@ == ts,
                self.pos > old(self).pos,
                expr_wf(lhs),
                parses_expr(ts, p0, min_prec, Ok((lhs, self.pos as int))),
            decreases self.remaining(),
        {
            let ghost pi = self.pos as int;
            let ghost l = lhs;
            let (op, prec) = match self.peek_infix() {
                Some(x) => x,
                None => {
                    proof {
                        assert(parses_infix(ts, pi, min_prec, l, Ok((l, pi))));
                    }
                    break;
                },
            };
            if prec < min_prec {
                proof {
                    assert(parses_infix(ts, pi, min_prec, l, Ok((l, pi))));
                }
                break;
            }
            let op_tok = self.next();
            let r3 = self.parse_expr(prec + 1);
            proof {
                assert(through(parsed(r3, self.pos), pi));
            }
            let rhs = match r3 {
                Ok(e) => e,
                Err(e) => {
                    proof {
                        assert(parses_infix(ts, pi, min_prec, l, Err((e.message@, e.span))));
                    }
                    return Err(e);
                },
            };
            let span = lhs.span().merge(rhs.span());
            lhs = Expr::Binary { lhs: Box::new(lhs), op, rhs: Box::new(rhs), span: span.merge(op_tok.span) };
            proof {
                assert forall|rr: Parsed<Expr>|
                    #[trigger] parses_infix(ts, self.pos as int, min_prec, lhs, rr) implies parses_expr(
                        ts,
                        p0,
                        min_prec,
                        rr,
                    ) by {
                    assert(parses_infix(ts, pi, min_prec, l, rr));
                }
            }
        }
        Ok(lhs)
    }

    /// A literal, name, grouped, unary, `if`, block, array or object expression.
    fn parse_prefix(&mut self) -> (r: Result<Expr, ParseError>)
        requires
            old(self).wf(),
        ensures
            final(self).wf(),
            final(self).tokens@ == old(self).tokens@,
            final(self).pos >= old(self).pos,
            r is Ok ==> final(self).pos > old(self).pos,
            r matches Ok(e) ==> expr_wf(e),
            parses_prefix(old(self).tokens@, old(self).pos as int, parsed(r, final(self).pos)),
        decreases old(self).remaining(), 0nat,
    {
        let ghost ts = self.tokens@;
        let ghost p0 = self.pos as int;
        proof {
            lemma_not_last(ts, p0);
        }
        let tok = self.next();
        let span = tok.span;
        match tok.kind {
            TokenKind::Int(i) => Ok(Expr::Int(i, span)),
            TokenKind::True => Ok(Expr::Bool(true, span)),
            TokenKind::False => Ok(Expr::Bool(false, span)),
            TokenKind::String(s) => Ok(Expr::String(s, span)),
            TokenKind::Ident(s) => Ok(Expr::Ident(s, span)),
            TokenKind::If => self.parse_if_expr(span),
            TokenKind::LBrace => self.parse_block_expr_from_open(span),
            TokenKind::LBracket => self.parse_array_expr_from_open(span),
            TokenKind::Hash => self.parse_object_expr(span),
            TokenKind::Minus => {
                let r1 = self.parse_expr(7);
                proof {
                    assert(through(parsed(r1, self.pos), p0));
                }
                match r1 {
                    Ok(expr) => Ok(Expr::Unary { op: UnaryOp::Neg, span: span.merge(expr.span()), expr: Box::new(expr) }),
                    Err(e) => Err(e),
                }
            },
            TokenKind::Bang => {
                let r1 = self.parse_expr(7);
                proof {
                    assert(through(parsed(r1, self.pos), p0));
                }
                match r1 {
                    Ok(expr) => Ok(Expr::Unary { op: UnaryOp::Not, span: span.merge(expr.span()), expr: Box::new(expr) }),
                    Err(e) => Err(e),
                }
            },
            TokenKind::LParen => {
                let r1 = self.parse_expr(0);
                proof {
                    assert(through(parsed(r1, self.pos), p0));
                }
                let expr = match r1 {
                    Ok(x) => x,
                    Err(e) => {
                        return Err(e);
                    },
                };
                let close = match self.expect(TokenKind::RParen, "expected ')'") {
                    Ok(t) => t,
                    Err(e) => {
                        return Err(e);
                    },
                };
                Ok(Expr::Group { span: span.merge(close.span), expr: Box::new(expr) })
            },
            _ => Err(error("unexpected token in expression", span)),
        }
    }

    /// Calls and indexing that follow an expression.
    fn parse_postfix(&mut self, expr: Expr) -> (r: Result<Expr, ParseError>)
        requires
            old(self).wf(),
            expr_wf(expr),
        ensures
            final(self).wf(),
            final(self).tokens@ == old(self).tokens@,
            final(self).pos >= old(self).pos,
            r matches Ok(e) ==> expr_wf(e),
            parses_postfix(old(self).tokens@, old(self).pos as int, expr, parsed(r, final(self).pos)),
        decreases old(self).remaining(), 1nat,
    {
        let ghost ts = self.tokens@;
        let ghost p0 = self.pos as int;
        let ghost e0 = expr;
        let mut cur_e = expr;
        loop
            invariant_except_break
                self.wf(),
                self.tokens@ == ts,
                ts == old(self).tokens@,
                p0 == old(self).pos,
                e0 == expr,
                self.pos >= old(self).pos,
                expr_wf(cur_e),
                forall|rr: Parsed<Expr>|
                    #[trigger] parses_postfix(ts, self.pos as int, cur_e, rr) ==> parses_postfix(ts, p0, e0, rr),
            ensures
                self.wf(),
                self.tokens@ == ts,
                self.pos >= old(self).pos,
                expr_wf(cur_e),
                parses_postfix(ts, p0, e0, Ok((cur_e, self.pos as int))),
            decreases self.remaining(),
        {
            let ghost pi = self.pos as int;
            let ghost cur = cur_e;
            if self.check(TokenKind::LParen) {
                let r1 = self.parse_call_expr(cur_e);
                proof {
                    assert(through(parsed(r1, self.pos), pi));
                }
                match r1 {
                    Ok(e) => {
                        cur_e = e;
                    },
                    Err(e) => {
                        proof {
                            assert(parses_postfix(ts, pi, cur, Err((e.message@, e.span))));
                            assert(parses_postfix(ts, p0, e0, Err((e.message@, e.span))));
                        }
                        return Err(e);
                    },
                }
                proof {
                    assert forall|rr: Parsed<Expr>|
                        #[trigger] parses_postfix(ts, self.pos as int, cur_e, rr) implies parses_postfix(ts, p0, e0, rr) by {
                        assert(parses_postfix(ts, pi, cur, rr));
                    }
                }
                continue;
            }
            if self.check(TokenKind::LBracket) {
                let r1 = self.parse_index_expr(cur_e);
                proof {
                    assert(through(parsed(r1, self.pos), pi));
                }
                match r1 {
                    Ok(e) => {
                        cur_e = e;
                    },
                    Err(e) => {
                        proof {
                            assert(parses_postfix(ts, pi, cur, Err((e.message@, e.span))));
                            assert(parses_postfix(ts, p0, e0, Err((e.message@, e.span))));
                        }
                        return Err(e);
                    },
                }
                proof {
                    assert forall|rr: Parsed<Expr>|
                        #[trigger] parses_postfix(ts, self.pos as int, cur_e, rr) implies parses_postfix(ts, p0, e0, rr) by {
                        assert(parses_postfix(ts, pi, cur, rr));
                    }
                }
                continue;
            }
            proof {
                assert(parses_postfix(ts, pi, cur, Ok((cur, pi))));
            }
            break;
        }
        Ok(cur_e)
    }

    /// `callee ( args )`
    fn parse_call_expr(&mut self, callee: Expr) -> (r: Result<Expr, ParseError>)
        requires
            old(self).wf(),
            old(self).cur().kind is LParen,
            expr_wf(callee),
        ensures
            final(self).wf(),
            final(self).tokens@ == old(self).tokens@,
            final(self).pos >= old(self).pos,
            r is Ok ==> final(self).pos > old(self).pos,
            r matches Ok(e) ==> expr_wf(e),
            parses_call(old(self).tokens@, old(self).pos as int, callee, parsed(r, final(self).pos)),
        decreases old(self).remaining(), 0nat,
    {
        let ghost ts = self.tokens@;
        let ghost p0 = self.pos as int;
        proof {
            lemma_not_last(ts, p0);
        }
        let open = match self.expect(TokenKind::LParen, "expected '('") {
            Ok(t) => t,
            Err(e) => {
                return Err(e);
            },
        };
        let args = match self.parse_elems(true) {
            Ok(a) => a,
            Err(e) => {
                proof {
                    assert(through(Err::<(Seq<Expr>, int), (Seq<char>, Span)>((e.message@, e.span)), p0));
                }
                return Err(e);
            },
        };
        proof {
            assert(through(Ok::<(Seq<Expr>, int), (Seq<char>, Span)>((args@, self.pos as int)), p0));
        }
        let close = match self.expect(TokenKind::RParen, "expected ')'") {
            Ok(t) => t,
            Err(e) => {
                return Err(e);
            },
        };
        let span = callee.span().merge(open.span).merge(close.span);
        let ghost q = self.pos as int - 1;
        let e = Expr::Call { callee: Box::new(callee), args, span };
        proof {
            if args@.len() == 0 {
                assert(args@ =~= Seq::<Expr>::empty());
            }
            assert(call_expr(e, callee, args@, join(join(callee.span_of(), ts[p0].span), ts[q].span)));
        }
        Ok(e)
    }

    /// Expressions separated by commas up to the closing `)` (when `paren`) or `]` (a comma may
    /// come right before it), which is left for the caller.
    fn parse_elems(&mut self, paren: bool) -> (r: Result<Vec<Expr>, ParseError>)
        requires
            old(self).wf(),
        ensures
            final(self).wf(),
            final(self).tokens@ == old(self).tokens@,
            final(self).pos >= old(self).pos,
            r matches Ok(xs) ==> exprs_wf(xs@),
            old(self).cur().kind == closer(paren) ==> (r matches Ok(xs) && xs@.len() == 0 && final(self).pos == old(self).pos),
            old(self).cur().kind != closer(paren) ==> match r {
                Ok(xs) => parses_elems(
                    old(self).tokens@,
                    old(self).pos as int,
                    Seq::empty(),
                    closer(paren),
                    Ok((xs@, final(self).pos as int)),
                ) && final(self).pos > old(self).pos,
                Err(e) => parses_elems(old(self).tokens@, old(self).pos as int, Seq::empty(), closer(paren), Err((e.message@, e.span))),
            },
        decreases old(self).remaining(), 3nat,
    {
        let ghost ts = self.tokens@;
        let ghost p0 = self.pos as int;
        let ghost close = closer(paren);
        let mut xs: Vec<Expr> = Vec::new();
        if self.check(close_kind(paren)) {
            return Ok(xs);
        }
        let mut more = true;
        while more
            invariant
                self.wf(),
                self.tokens@ == ts,
                ts == old(self).tokens@,
                p0 == old(self).pos,
                self.pos >= old(self).pos,
                !more ==> self.pos > old(self).pos,
                close == closer(paren),
                old(self).cur().kind != closer(paren),
                exprs_wf(xs@),
                more ==> forall|rr: Parsed<Seq<Expr>>|
                    #[trigger] parses_elems(ts, self.pos as int, xs@, close, rr) ==> parses_elems(
                        ts,
                        p0,
                        Seq::empty(),
                        close,
                        rr,
                    ),
                !more ==> parses_elems(ts, p0, Seq::empty(), close, Ok((xs@, self.pos as int))),
            decreases self.remaining(), if more { 1nat } else { 0nat },
        {
            let ghost pi = self.pos as int;
            let ghost acc = xs@;
            let r1 = self.parse_expr(0);
            proof {
                assert(through(parsed(r1, self.pos), pi));
            }
            let x = match r1 {
                Ok(x) => x,
                Err(e) => {
                    proof {
                        assert(parses_elems(ts, pi, acc, close, Err((e.message@, e.span))));
                    }
                    return Err(e);
                },
            };
            let ghost q = self.pos as int;
            proof {
                lemma_exprs_push(xs@, x);
                lemma_not_last(ts, q);
            }
            xs.push(x);
            if self.maybe(TokenKind::Comma).is_some() {
                if self.check(close_kind(paren)) {
                    more = false;
                    proof {
                        assert(parses_elems(ts, pi, acc, close, Ok((xs@, q + 1))));
                    }
                } else {
                    proof {
                        assert forall|rr: Parsed<Seq<Expr>>|
                            #[trigger] parses_elems(ts, self.pos as int, xs@, close, rr) implies parses_elems(
                                ts,
                                p0,
                                Seq::empty(),
                                close,
                                rr,
                            ) by {
                            assert(parses_elems(ts, pi, acc, close, rr));
                        }
                    }
                }
            } else {
                more = false;
                proof {
                    assert(parses_elems(ts, pi, acc, close, Ok((xs@, q))));
                }
            }
        }
        Ok(xs)
    }

    /// `target [ index ]`
    fn parse_index_expr(&mut self, target: Expr) -> (r: Result<Expr, ParseError>)
        requires
            old(self).wf(),
            old(self).cur().kind is LBracket,
            expr_wf(target),
        ensures
            final(self).wf(),
            final(self).tokens@ == old(self).tokens@,
            final(self).pos >= old(self).pos,
            r is Ok ==> final(self).pos > old(self).pos,
            r matches Ok(e) ==> expr_wf(e),
            parses_index(old(self).tokens@, old(self).pos as int, target, parsed(r, final(self).pos)),
        decreases old(self).remaining(), 0nat,
    {
        let ghost ts = self.tokens@;
        let ghost p0 = self.pos as int;
        proof {
            lemma_not_last(ts, p0);
        }
        let open = match self.expect(TokenKind::LBracket, "expected '['") {
            Ok(t) => t,
            Err(e) => {
                return Err(e);
            },
        };
        let r1 = self.parse_expr(0);
        proof {
            assert(through(parsed(r1, self.pos), p0));
        }
        let index = match r1 {
            Ok(x) => x,
            Err(e) => {
                return Err(e);
            },
        };
        let close = match self.expect(TokenKind::RBracket, "expected ']'") {
            Ok(t) => t,
            Err(e) => {
                return Err(e);
            },
        };
        let span = target.span().merge(open.span).merge(close.span);
        Ok(Expr::Index { target: Box::new(target), index: Box::new(index), span })
    }

    /// `[ elements ]`, after the `[` whose span is `open`.
    fn parse_array_expr_from_open(&mut self, open: Span) -> (r: Result<Expr, ParseError>)
        requires
            old(self).wf(),
        ensures
            final(self).wf(),
            final(self).tokens@ == old(self).tokens@,
            final(self).pos >= old(self).pos,
            r is Ok ==> final(self).pos > old(self).pos,
            r matches Ok(e) ==> expr_wf(e),
            parses_array(old(self).tokens@, old(self).pos as int, open, parsed(r, final(self).pos)),
        decreases old(self).remaining(), 4nat,
    {
        let ghost ts = self.tokens@;
        let ghost p0 = self.pos as int;
        let elements = match self.parse_elems(false) {
            Ok(a) => a,
            Err(e) => {
                proof {
                    assert(through(Err::<(Seq<Expr>, int), (Seq<char>, Span)>((e.message@, e.span)), p0));
                }
                return Err(e);
            },
        };
        let ghost q = self.pos as int;
        proof {
            assert(through(Ok::<(Seq<Expr>, int), (Seq<char>, Span)>((elements@, q)), p0));
        }
        let close = match self.expect(TokenKind::RBracket, "expected ']'") {
            Ok(t) => t,
            Err(e) => {
                return Err(e);
            },
        };
        let span = open.merge(close.span);
        proof {
            if elements@.len() == 0 {
                assert(elements@ =~= Seq::<Expr>::empty());
            }
        }
        Ok(Expr::Array { elements, span })
    }

    /// `# { key: value, ... }`, after the `#` whose span is `hash`.
    fn parse_object_expr(&mut self, hash: Span) -> (r: Result<Expr, ParseError>)
        requires
            old(self).wf(),
        ensures
            final(self).wf(),
            final(self).tokens@ == old(self).tokens@,
            final(self).pos >= old(self).pos,
            r is Ok ==> final(self).pos > old(self).pos,
            r matches Ok(e) ==> expr_wf(e),
            parses_object(old(self).tokens@, old(self).pos as int, hash, parsed(r, final(self).pos)),
        decreases old(self).remaining(), 3nat,
    {
        let ghost ts = self.tokens@;
        let ghost p0 = self.pos as int;
        proof {
            lemma_not_last(ts, p0);
        }
        match self.expect(TokenKind::LBrace, "expected '{' after '#'") {
            Ok(_) => {},
            Err(e) => {
                return Err(e);
            },
        }
        let mut props: Vec<(String, Expr)> = Vec::new();
        if !self.check(TokenKind::RBrace) {
            let mut more = true;
            while more
                invariant
                    self.wf(),
                    self.tokens@ == ts,
                    ts == old(self).tokens@,
                    p0 == old(self).pos,
                    self.pos > old(self).pos,
                    p0 + 1 < ts.len(),
                    kind_is(ts, p0, TokenKind::LBrace),
                    !kind_is(ts, p0 + 1, TokenKind::RBrace),
                    props_wf(props@),
                    more ==> forall|rr: Parsed<Seq<(String, Expr)>>|
                        #[trigger] parses_props(ts, self.pos as int, props@, rr) ==> parses_props(
                            ts,
                            p0 + 1,
                            Seq::empty(),
                            rr,
                        ),
                    !more ==> parses_props(ts, p0 + 1, Seq::empty(), Ok((props@, self.pos as int))),
                decreases self.remaining(), if more { 1nat } else { 0nat },
            {
                let ghost pi = self.pos as int;
                let ghost acc = props@;
                proof {
                    lemma_not_last(ts, pi);
                }
                let key_tok = self.next();
                let key = match key_tok.kind {
                    TokenKind::Ident(s) => s,
                    TokenKind::String(s) => s,
                    _ => {
                        proof {
                            let e = ("expected object key (identifier or string)"@, ts[pi].span);
                            assert(parses_props(ts, pi, acc, Err(e)));
                            assert(through(Err::<(Seq<(String, Expr)>, int), (Seq<char>, Span)>(e), p0));
                        }
                        return Err(error("expected object key (identifier or string)", key_tok.span));
                    },
                };
                match self.expect(TokenKind::Colon, "expected ':' after key") {
                    Ok(_) => {},
                    Err(e) => {
                        proof {
                            assert(parses_props(ts, pi, acc, Err((e.message@, e.span))));
                            assert(through(Err::<(Seq<(String, Expr)>, int), (Seq<char>, Span)>((e.message@, e.span)), p0));
                        }
                        return Err(e);
                    },
                }
                let r1 = self.parse_expr(0);
                proof {
                    assert(through(parsed(r1, self.pos), pi));
                }
                let value = match r1 {
                    Ok(x) => x,
                    Err(e) => {
                        proof {
                            assert(parses_props(ts, pi, acc, Err((e.message@, e.span))));
                            assert(through(Err::<(Seq<(String, Expr)>, int), (Seq<char>, Span)>((e.message@, e.span)), p0));
                        }
                        return Err(e);
                    },
                };
                let ghost q = self.pos as int;
                proof {
                    lemma_props_push(props@, (key, value));
                    lemma_not_last(ts, q);
                }
                props.push((key, value));
                if self.maybe(TokenKind::Comma).is_some() {
                    if self.check(TokenKind::RBrace) {
                        more = false;
                        proof {
                            assert(parses_props(ts, pi, acc, Ok((props@, q + 1))));
                        }
                    } else {
                        proof {
                            assert forall|rr: Parsed<Seq<(String, Expr)>>|
                                #[trigger] parses_props(ts, self.pos as int, props@, rr) implies parses_props(
                                    ts,
                                    p0 + 1,
                                    Seq::empty(),
                                    rr,
                                ) by {
                                assert(parses_props(ts, pi, acc, rr));
                            }
                        }
                    }
                } else {
                    more = false;
                    proof {
                        assert(parses_props(ts, pi, acc, Ok((props@, q))));
                    }
                }
            }
            proof {
                assert(through(Ok::<(Seq<(String, Expr)>, int), (Seq<char>, Span)>((props@, self.pos as int)), p0));
            }
        }
        assert(props_wf(props@));
        let close = match self.expect(TokenKind::RBrace, "expected '}'") {
            Ok(t) => t,
            Err(e) => {
                return Err(e);
            },
        };
        let span = hash.merge(close.span);
        proof {
            if props@.len() == 0 {
                assert(props@ =~= Seq::<(String, Expr)>::empty());
            }
        }
        Ok(Expr::Object { props, span })
    }

    /// `if cond { ... } else ...`, after the `if` whose span is `if_span`.
    fn parse_if_expr(&mut self, if_span: Span) -> (r: Result<Expr, ParseError>)
        requires
            old(self).wf(),
        ensures
            final(self).wf(),
            final(self).tokens@ == old(self).tokens@,
            final(self).pos >= old(self).pos,
            r is Ok ==> final(self).pos > old(self).pos,
            r matches Ok(e) ==> expr_wf(e),
            parses_if(old(self).tokens@, old(self).pos as int, if_span, parsed(r, final(self).pos)),
        decreases old(self).remaining(), 3nat,
    {
        let ghost ts = self.tokens@;
        let ghost p0 = self.pos as int;
        let rc = self.parse_expr(0);
        let ghost grc = parsed(rc, self.pos);
        let cond = match rc {
            Ok(x) => x,
            Err(e) => {
                proof {
                    lemma_if_cond(ts, p0, if_span, grc);
                }
                return Err(e);
            },
        };
        let ghost q1 = self.pos as int;
        let rt = self.parse_block_expr();
        let then_branch = match rt {
            Ok(x) => x,
            Err(e) => {
                proof {
                    lemma_if_then_err(ts, p0, if_span, cond, q1, (e.message@, e.span));
                }
                return Err(e);
            },
        };
        let ghost q2 = self.pos as int;
        proof {
            lemma_not_last(ts, q2);
        }
        match self.expect(TokenKind::Else, "expected 'else'") {
            Ok(_) => {},
            Err(e) => {
                proof {
                    lemma_if_else(ts, p0, if_span, cond, q1, then_branch, q2, Err((e.message@, e.span)));
                }
                return Err(e);
            },
        }
        let ghost q3 = self.pos as int;
        let else_r = if self.check(TokenKind::If) {
            proof {
                lemma_not_last(ts, q3);
            }
            let tok = self.next();
            let re = self.parse_if_expr(tok.span);
            re
        } else if self.check(TokenKind::LBrace) {
            let re = self.parse_block_expr();
            re
        } else {
            let e = error("expected 'if' or '{' after 'else'", self.peek().span);
            proof {
                lemma_if_else(ts, p0, if_span, cond, q1, then_branch, q2, Err((e.message@, e.span)));
            }
            return Err(e);
        };
        let ghost gre = parsed(else_r, self.pos);
        let else_branch = match else_r {
            Ok(x) => x,
            Err(e) => {
                proof {
                    assert(through(gre, q2));
                    lemma_if_else(ts, p0, if_span, cond, q1, then_branch, q2, gre);
                }
                return Err(e);
            },
        };
        let span = if_span.merge(else_branch.span());
        let res = Expr::If {
            cond: Box::new(cond),
            then_branch: Box::new(then_branch),
            else_branch: Box::new(else_branch),
            span,
        };
        proof {
            assert(through(gre, q2));
            lemma_if_else(ts, p0, if_span, cond, q1, then_branch, q2, Ok((res, self.pos as int)));
        }
        Ok(res)
    }

    /// `{ ... }`
    fn parse_block_expr(&mut self) -> (r: Result<Expr, ParseError>)
        requires
            old(self).wf(),
        ensures
            final(self).wf(),
            final(self).tokens@ == old(self).tokens@,
            final(self).pos >= old(self).pos,
            r is Ok ==> final(self).pos > old(self).pos,
            r matches Ok(e) ==> expr_wf(e) && e is Block,
            parses_block(old(self).tokens@, old(self).pos as int, parsed(r, final(self).pos)),
        decreases old(self).remaining(), 6nat,
    {
        proof {
            lemma_not_last(self.tokens@, self.pos as int);
        }
        let open = match self.expect(TokenKind::LBrace, "expected '{'") {
            Ok(t) => t,
            Err(e) => {
                return Err(e);
            },
        };
        self.parse_block_expr_from_open(open.span)
    }

    /// The statements and tail of a block and its `}`, after the `{` whose span is `open`.
    fn parse_block_expr_from_open(&mut self, open: Span) -> (r: Result<Expr, ParseError>)
        requires
            old(self).wf(),
        ensures
            final(self).wf(),
            final(self).tokens@ == old(self).tokens@,
            final(self).pos >= old(self).pos,
            r is Ok ==> final(self).pos > old(self).pos,
            r matches Ok(e) ==> expr_wf(e) && e is Block,
            parses_block_body(old(self).tokens@, old(self).pos as int, open, parsed(r, final(self).pos)),
        decreases old(self).remaining(), 5nat,
    {
        let ghost ts = self.tokens@;
        let ghost p0 = self.pos as int;
        let rs = self.parse_sequence(Terminator::RBrace);
        proof {
            assert(through(parsed_seq(rs, self.pos), p0));
        }
        let (stmts, tail) = match rs {
            Ok(x) => x,
            Err(e) => {
                return Err(e);
            },
        };
        let close = match self.expect(TokenKind::RBrace, "expected '}'") {
            Ok(t) => t,
            Err(e) => {
                return Err(e);
            },
        };
        let span = open.merge(close.span);
        let tail = match tail {
            Some(t) => Some(Box::new(t)),
            None => None,
        };
        Ok(Expr::Block { stmts, tail, span })
    }

    /// Statements, and the expression that ends the sequence right before its terminator.
    fn parse_sequence(&mut self, terminator: Terminator) -> (r: Result<
        (Vec<Stmt>, Option<Expr>),
        ParseError,
    >)
        requires
            old(self).wf(),
        ensures
            final(self).wf(),
            final(self).tokens@ == old(self).tokens@,
            final(self).pos >= old(self).pos,
            r matches Ok((stmts, tail)) ==> stmts_wf(stmts@, terminator is Eof) && opt_expr_wf(
                tail,
            ),
            r is Ok ==> match terminator {
                Terminator::Eof => final(self).cur().kind is Eof,
                Terminator::RBrace => final(self).cur().kind is RBrace,
            },
            parses_seq(
                old(self).tokens@,
                old(self).pos as int,
                terminator is Eof,
                Seq::empty(),
                parsed_seq(r, final(self).pos),
            ),
        decreases old(self).remaining(), 4nat,
    {
        let ghost ts = self.tokens@;
        let ghost p0 = self.pos as int;
        let top = matches!(terminator, Terminator::Eof);
        let mut stmts: Vec<Stmt> = Vec::new();
        let mut tail: Option<Expr> = None;
        loop
            invariant_except_break
                self.wf(),
                self.tokens@ == ts,
                ts == old(self).tokens@,
                p0 == old(self).pos,
                self.pos >= old(self).pos,
                stmts_wf(stmts@, top),
                top == (terminator is Eof),
                tail is None,
                forall|rr: Parsed<(Seq<Stmt>, Option<Expr>)>|
                    #[trigger] parses_seq(ts, self.pos as int, top, stmts@, rr) ==> parses_seq(
                        ts,
                        p0,
                        top,
                        Seq::empty(),
                        rr,
                    ),
            ensures
                self.wf(),
                self.tokens@ == ts,
                self.pos >= old(self).pos,
                stmts_wf(stmts@, top),
                opt_expr_wf(tail),
                match terminator {
                    Terminator::Eof => self.cur().kind is Eof,
                    Terminator::RBrace => self.cur().kind is RBrace,
                },
                parses_seq(ts, p0, top, Seq::empty(), Ok(((stmts@, tail), self.pos as int))),
            decreases self.remaining(),
        {
            let ghost pi = self.pos as int;
            let ghost acc = stmts@;
            if self.at_terminator(terminator) {
                proof {
                    assert(parses_seq(ts, pi, top, acc, Ok(((acc, None::<Expr>), pi))));
                }
                break;
            }
            if self.check(TokenKind::Let) || self.check(TokenKind::Return) || (self.check(TokenKind::Fn) && top) {
                let r1 = if self.check(TokenKind::Let) {
                    self.parse_let_stmt()
                } else if self.check(TokenKind::Return) {
                    self.parse_return_stmt()
                } else {
                    self.parse_fn_stmt()
                };
                proof {
                    assert(through(parsed(r1, self.pos), pi));
                }
                let s = match r1 {
                    Ok(s) => s,
                    Err(e) => {
                        proof {
                            assert(parses_seq(ts, pi, top, acc, Err((e.message@, e.span))));
                        }
                        return Err(e);
                    },
                };
                proof {
                    lemma_stmts_push(stmts@, s, top);
                }
                stmts.push(s);
                proof {
                    assert forall|rr: Parsed<(Seq<Stmt>, Option<Expr>)>|
                        #[trigger] parses_seq(ts, self.pos as int, top, stmts@, rr) implies parses_seq(
                            ts,
                            p0,
                            top,
                            Seq::empty(),
                            rr,
                        ) by {
                        assert(parses_seq(ts, pi, top, acc, rr));
                    }
                }
                continue;
            }
            if self.check(TokenKind::Fn) {
                proof {
                    assert(parses_seq(ts, pi, top, acc, Err(("function declarations are only allowed at top-level (for now)"@, ts[pi].span))));
                }
                return Err(
                    error(
                        "function declarations are only allowed at top-level (for now)",
                        self.peek().span,
                    ),
                );
            }
            let r1 = self.parse_expr(0);
            proof {
                assert(through(parsed(r1, self.pos), pi));
            }
            let expr = match r1 {
                Ok(x) => x,
                Err(e) => {
                    proof {
                        assert(parses_seq(ts, pi, top, acc, Err((e.message@, e.span))));
                    }
                    return Err(e);
                },
            };
            let ghost q = self.pos as int;
            proof {
                lemma_not_last(ts, q);
            }
            if self.maybe(TokenKind::Equal).is_some() {
                if !is_assignable(&expr) {
                    proof {
                        assert(parses_seq(ts, pi, top, acc, Err(("invalid assignment target"@, expr.span_of()))));
                    }
                    return Err(error("invalid assignment target", expr.span()));
                }
                let r2 = self.parse_expr(0);
                proof {
                    assert(through(parsed(r2, self.pos), q));
                }
                let rhs = match r2 {
                    Ok(x) => x,
                    Err(e) => {
                        proof {
                            assert(parses_seq(ts, pi, top, acc, Err((e.message@, e.span))));
                        }
                        return Err(e);
                    },
                };
                let ghost q2 = self.pos as int;
                proof {
                    lemma_not_last(ts, q2);
                }
                match self.expect(TokenKind::Semicolon, "expected ';' after assignment") {
                    Ok(_) => {},
                    Err(e) => {
                        proof {
                            assert(parses_seq(ts, pi, top, acc, Err((e.message@, e.span))));
                        }
                        return Err(e);
                    },
                }
                let span = expr.span().merge(rhs.span());
                let s = Stmt::Assign { target: expr, expr: rhs, span };
                proof {
                    lemma_stmts_push(stmts@, s, top);
                }
                stmts.push(s);
                proof {
                    assert forall|rr: Parsed<(Seq<Stmt>, Option<Expr>)>|
                        #[trigger] parses_seq(ts, self.pos as int, top, stmts@, rr) implies parses_seq(
                            ts,
                            p0,
                            top,
                            Seq::empty(),
                            rr,
                        ) by {
                        assert(parses_seq(ts, pi, top, acc, rr));
                    }
                }
                continue;
            }
            if self.maybe(TokenKind::Semicolon).is_some() {
                let s = Stmt::Expr { span: expr.span(), expr };
                proof {
                    lemma_stmts_push(stmts@, s, top);
                }
                stmts.push(s);
                proof {
                    assert forall|rr: Parsed<(Seq<Stmt>, Option<Expr>)>|
                        #[trigger] parses_seq(ts, self.pos as int, top, stmts@, rr) implies parses_seq(
                            ts,
                            p0,
                            top,
                            Seq::empty(),
                            rr,
                        ) by {
                        assert(parses_seq(ts, pi, top, acc, rr));
                    }
                }
                continue;
            }
            if self.at_terminator(terminator) {
                proof {
                    assert(parses_seq(ts, pi, top, acc, Ok(((acc, Some(expr)), q))));
                }
                tail = Some(expr);
                break;
            }
            proof {
                assert(parses_seq(ts, pi, top, acc, Err(("expected ';' after expression"@, expr.span_of()))));
            }
            return Err(error("expected ';' after expression", expr.span()));
        }
        Ok((stmts, tail))
    }

    /// `Name` or `Name<T, ...>`.
    fn parse_type(&mut self) -> (r: Result<TypeExpr, ParseError>)
        requires
            old(self).wf(),
        ensures
            final(self).wf(),
            final(self).tokens@ == old(self).tokens@,
            final(self).pos >= old(self).pos,
            r is Ok ==> final(self).pos > old(self).pos,
            parses_type(old(self).tokens@, old(self).pos as int, parsed(r, final(self).pos)),
        decreases old(self).remaining(),
    {
        let ghost ts = self.tokens@;
        let ghost p0 = self.pos as int;
        proof {
            lemma_not_last(ts, p0);
        }
        let tok = self.next();
        match tok.kind {
            TokenKind::Ident(base) => {
                let base_span = tok.span;
                if self.maybe(TokenKind::Less).is_some() {
                    let mut args: Vec<TypeExpr> = Vec::new();
                    if self.check(TokenKind::Greater) {
                        return Err(error("expected type argument", self.peek().span));
                    }
                    let mut more = true;
                    while more
                        invariant
                            self.wf(),
                            self.tokens@ == ts,
                            ts == old(self).tokens@,
                            p0 == old(self).pos,
                            self.pos > p0,
                            p0 + 2 <= self.pos,
                            ts[p0].kind == TokenKind::Ident(base),
                            kind_is(ts, p0 + 1, TokenKind::Less),
                            !kind_is(ts, p0 + 2, TokenKind::Greater),
                            more ==> forall|rr: Parsed<Seq<TypeExpr>>|
                                #[trigger] parses_type_args(ts, self.pos as int, args@, rr) ==> parses_type_args(
                                    ts,
                                    p0 + 2,
                                    Seq::empty(),
                                    rr,
                                ),
                            !more ==> parses_type_args(ts, p0 + 2, Seq::empty(), Ok((args@, self.pos as int))),
                        decreases self.remaining(), if more { 1nat } else { 0nat },
                    {
                        let ghost pi = self.pos as int;
                        let ghost acc = args@;
                        let r1 = self.parse_type();
                        proof {
                            assert(through(parsed(r1, self.pos), pi));
                        }
                        let ty = match r1 {
                            Ok(t) => t,
                            Err(e) => {
                                proof {
                                    assert(parses_type_args(ts, pi, acc, Err((e.message@, e.span))));
                                    assert(through(Err::<(Seq<TypeExpr>, int), (Seq<char>, Span)>((e.message@, e.span)), p0));
                                }
                                return Err(e);
                            },
                        };
                        let ghost q = self.pos as int;
                        args.push(ty);
                        proof {
                            lemma_not_last(ts, q);
                        }
                        if self.maybe(TokenKind::Comma).is_none() {
                            more = false;
                            proof {
                                assert(parses_type_args(ts, pi, acc, Ok((args@, q))));
                            }
                        } else {
                            proof {
                                assert forall|rr: Parsed<Seq<TypeExpr>>|
                                    #[trigger] parses_type_args(ts, self.pos as int, args@, rr) implies parses_type_args(
                                        ts,
                                        p0 + 2,
                                        Seq::empty(),
                                        rr,
                                    ) by {
                                    assert(parses_type_args(ts, pi, acc, rr));
                                }
                            }
                        }
                    }
                    let ghost q = self.pos as int;
                    proof {
                        assert(through(Ok::<(Seq<TypeExpr>, int), (Seq<char>, Span)>((args@, q)), p0));
                    }
                    let close = match self.expect(TokenKind::Greater, "expected '>' to close type arguments") {
                        Ok(t) => t,
                        Err(e) => {
                            return Err(e);
                        },
                    };
                    let span = base_span.merge(close.span);
                    Ok(TypeExpr::Generic { base, args, span })
                } else {
                    Ok(TypeExpr::Named(base, base_span))
                }
            },
            _ => Err(error("expected type name", tok.span)),
        }
    }
}

/// Parses a token list that ends with `Eof` into a program.
pub fn parse(tokens: Vec<Token>) -> (r: Result<Program, ParseError>)
    requires
        ends_with_eof(tokens@),
    ensures
        r matches Ok(p) ==> program_wf(p),
        parses_program(tokens@, program_parsed(r)),
{
    Parser::new(tokens).parse_program()
}

} // verus!
