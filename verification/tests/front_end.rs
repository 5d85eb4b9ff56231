use moon::ast::{BinaryOp, Expr, Stmt};
use moon::lexer::{lex, Token, TokenKind};
use moon::parser::{parse, Parser};
use moon::source::Source;
use moon::span::Span;

fn kinds(src: &str) -> Vec<TokenKind> {
    lex(src).unwrap().into_iter().map(|t: Token| t.kind).collect()
}

#[test]
fn lexer_tokens_and_spans() {
    let toks = lex("let x1 = -> // note\n\"a\\n\" 42;").unwrap();
    let k: Vec<&TokenKind> = toks.iter().map(|t| &t.kind).collect();
    assert_eq!(k[0], &TokenKind::Let);
    assert_eq!(k[1], &TokenKind::Ident("x1".to_string()));
    assert_eq!(k[2], &TokenKind::Equal);
    assert_eq!(k[3], &TokenKind::Arrow);
    assert_eq!(k[4], &TokenKind::String("a\n".to_string()));
    assert_eq!(k[5], &TokenKind::Int(42));
    assert_eq!(k[6], &TokenKind::Semicolon);
    assert_eq!(k[7], &TokenKind::Eof);
    assert_eq!(toks[1].span, Span::new(4, 6));
    assert_eq!(toks[7].span, Span::new(29, 29));
}

#[test]
fn lexer_two_char_operators() {
    assert_eq!(
        kinds("== != <= >= && || < > ! = # : , ( ) { } [ ] + - * / %"),
        vec![
            TokenKind::EqualEqual, TokenKind::BangEqual, TokenKind::LessEqual, TokenKind::GreaterEqual,
            TokenKind::AndAnd, TokenKind::OrOr, TokenKind::Less, TokenKind::Greater, TokenKind::Bang,
            TokenKind::Equal, TokenKind::Hash, TokenKind::Colon, TokenKind::Comma, TokenKind::LParen,
            TokenKind::RParen, TokenKind::LBrace, TokenKind::RBrace, TokenKind::LBracket, TokenKind::RBracket,
            TokenKind::Plus, TokenKind::Minus, TokenKind::Star, TokenKind::Slash, TokenKind::Percent,
            TokenKind::Eof,
        ]
    );
    assert_eq!(kinds("fn if else return true false"), vec![
        TokenKind::Fn, TokenKind::If, TokenKind::Else, TokenKind::Return, TokenKind::True, TokenKind::False,
        TokenKind::Eof,
    ]);
}

#[test]
fn lexer_errors() {
    let e = lex("let a = 1 & 2;").unwrap_err();
    assert_eq!(e.message, "unexpected '&' (did you mean '&&'?)");
    assert_eq!(e.span, Span::new(10, 11));
    let e = lex("\"abc").unwrap_err();
    assert_eq!(e.message, "unterminated string literal");
    let e = lex("\"a\\q\"").unwrap_err();
    assert_eq!(e.message, "unknown escape: \\q");
    let e = lex("99999999999999999999").unwrap_err();
    assert_eq!(e.message, "invalid integer literal: 99999999999999999999");
    let e = lex("$").unwrap_err();
    assert_eq!(e.message, "unexpected character: '$'");
}

#[test]
fn parser_precedence_and_shapes() {
    let p = parse(lex("1 + 2 * 3").unwrap()).unwrap();
    match p.tail.unwrap() {
        Expr::Binary { op: BinaryOp::Add, rhs, .. } => {
            assert!(matches!(*rhs, Expr::Binary { op: BinaryOp::Mul, .. }));
        }
        other => panic!("unexpected {other:?}"),
    }
    let p = parse(lex("a[0] = 1; f(1, 2,); x;").unwrap()).unwrap();
    assert!(matches!(p.stmts[0], Stmt::Assign { .. }));
    assert!(matches!(p.stmts[1], Stmt::Expr { expr: Expr::Call { .. }, .. }));
    assert!(p.tail.is_none());
}

#[test]
fn parser_errors() {
    let e = parse(lex("{ fn f() -> Int { 1 } }").unwrap()).unwrap_err();
    assert_eq!(e.message, "function declarations are only allowed at top-level (for now)");
    let e = parse(lex("1 + 2 = 3;").unwrap()).unwrap_err();
    assert_eq!(e.message, "invalid assignment target");
    let e = parse(lex("1 2").unwrap()).unwrap_err();
    assert_eq!(e.message, "expected ';' after expression");
    let e = parse(lex("if true { 1 }").unwrap()).unwrap_err();
    assert_eq!(e.message, "expected 'else'");
    let e = parse(lex("let = 1;").unwrap()).unwrap_err();
    assert_eq!(e.message, "expected identifier after 'let'");
    let e = parse(lex("let x: Array<> = 1;").unwrap()).unwrap_err();
    assert_eq!(e.message, "expected type argument");
    let e = Parser::new(lex("(1").unwrap()).parse_program().unwrap_err();
    assert_eq!(e.message, "expected ')'");
}

#[test]
fn source_line_col_and_render() {
    let s = Source::new("main.moon".to_string(), "let x = 1;\nlet y = z;\n".to_string());
    assert_eq!(s.line_col(0), (1, 1));
    assert_eq!(s.line_col(11), (2, 1));
    assert_eq!(s.line_col(19), (2, 9));
    assert_eq!(s.line_col(1000), (3, 1));
    let r = s.render_span(Span::new(19, 20), "undefined variable: z");
    assert_eq!(r, "main.moon:2:9: undefined variable: z\nlet y = z;\n        ^");
    let r = s.render_span(Span::new(4, 4), "here");
    assert_eq!(r, "main.moon:1:5: here\nlet x = 1;\n    ^");
}

#[test]
fn lexer_error_spans() {
    let e = lex("\"a\\q\"").unwrap_err();
    assert_eq!(e.span, Span::new(2, 4));
    let e = lex("\"a\\").unwrap_err();
    assert_eq!(e.message, "unterminated string literal");
    assert_eq!(e.span, Span::new(0, 3));
    let e = lex("x = \"\u{e9}\"").unwrap_err();
    assert_eq!(e.message, "non-ascii characters are not supported in string literals yet");
    assert_eq!(e.span, Span::new(5, 6));
    let e = lex("1 | 2").unwrap_err();
    assert_eq!(e.message, "unexpected '|' (did you mean '||'?)");
    assert_eq!(e.span, Span::new(2, 3));
    let e = lex("// note\n  12345678901234567890 + 1").unwrap_err();
    assert_eq!(e.span, Span::new(10, 30));
}
