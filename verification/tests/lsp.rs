use moon::lsp::{
    collect_top_level_defs, definition_at, definition_in, diagnostic, hover_at, hover_text, ident_at_offset,
    offset_from_position_utf16, position_from_offset_utf16, range_from_span_utf16, static_completions,
    CompletionKind, Position,
};
use moon::typechecker::check_program_with_spans;
use moon::lexer::lex;
use moon::parser::parse;
use moon::span::Span;

#[test]
fn utf16_position_roundtrip_ascii() {
    let text = "let x = 1;\nlet y = x;\n";
    for offset in 0..=text.len() {
        let pos = position_from_offset_utf16(text, offset);
        let back = offset_from_position_utf16(text, pos);
        assert_eq!(back, offset);
    }
}

#[test]
fn utf16_position_handles_surrogate_pairs() {
    let mut text = String::from("let s = \"");
    let emoji = '\u{1F600}';
    text.push(emoji);
    text.push_str("\";\n");

    let emoji_offset = text.find(emoji).unwrap();
    let before = position_from_offset_utf16(&text, emoji_offset);
    assert_eq!(before.line, 0);
    assert_eq!(before.character, 9);

    let after_offset = emoji_offset + emoji.len_utf8();
    let after = position_from_offset_utf16(&text, after_offset);
    assert_eq!(after.line, 0);
    assert_eq!(after.character, 11);

    let mid = offset_from_position_utf16(
        &text,
        Position {
            line: 0,
            character: 10,
        },
    );
    assert_eq!(mid, after_offset);
}

#[test]
fn lsp_positions_on_later_lines() {
    let text = "ab\ncd\n";
    assert_eq!(position_from_offset_utf16(text, 4), Position { line: 1, character: 1 });
    assert_eq!(position_from_offset_utf16(text, 100), Position { line: 2, character: 0 });
    assert_eq!(offset_from_position_utf16(text, Position { line: 1, character: 9 }), 6);
    assert_eq!(offset_from_position_utf16(text, Position { line: 1, character: 1 }), 4);
    assert_eq!(offset_from_position_utf16(text, Position { line: 7, character: 0 }), 6);
    let r = range_from_span_utf16(text, Span::new(1, 4));
    assert_eq!(r.start, Position { line: 0, character: 1 });
    assert_eq!(r.end, Position { line: 1, character: 1 });
}

#[test]
fn lsp_identifier_under_cursor() {
    let text = "let foo_1 = bar;";
    assert_eq!(ident_at_offset(text, 5).as_deref(), Some("foo_1"));
    assert_eq!(ident_at_offset(text, 9).as_deref(), Some("foo_1"));
    assert_eq!(ident_at_offset(text, 10), None);
    assert_eq!(ident_at_offset(text, 15).as_deref(), Some("bar"));
    assert_eq!(ident_at_offset(text, 500).as_deref(), Some("bar"));
    assert_eq!(ident_at_offset("", 0), None);
}

#[test]
fn lsp_definitions() {
    let text = "fn f() -> Int { 1 } let x = f(); x";
    let program = parse(lex(text).unwrap()).unwrap();
    let defs = collect_top_level_defs(&program);
    assert_eq!(defs.get("f").copied(), Some(Span::new(0, 19)));
    assert!(defs.get("x").is_some());
    assert_eq!(definition_at(text, 33), defs.get("x").copied());
    assert_eq!(definition_at(text, 28), Some(Span::new(0, 19)));
}

#[test]
fn lsp_completions() {
    let items = static_completions();
    assert_eq!(items.len(), 13);
    assert_eq!(items[0].label, "let");
    assert_eq!(items[0].kind, CompletionKind::Keyword);
    assert_eq!(items[6].label, "Int");
    assert_eq!(items[6].kind, CompletionKind::Class);
    assert_eq!(items[12].label, "gc");
    assert_eq!(items[12].kind, CompletionKind::Function);
}

#[test]
fn lsp_diagnostics_and_hover() {
    assert!(diagnostic("let x = 1; x").is_none());
    let (sp, msg) = diagnostic("let x = ;").unwrap();
    assert_eq!(msg, "parse error: unexpected token in expression");
    assert_eq!(sp, Span::new(8, 9));
    let (_, msg) = diagnostic("let x = @;").unwrap();
    assert_eq!(msg, "lex error: unexpected character: '@'");
    let (_, msg) = diagnostic("1 + true").unwrap();
    assert_eq!(msg, "type error: cannot add Int and Bool");
    let (sp, text) = hover_at("let x = 1 + 2; x", 8).unwrap();
    assert_eq!(sp, Span::new(8, 9));
    assert_eq!(text, "**Type:** `Int`");
    assert!(hover_at("let x = 1; x", 4).is_none());
}

#[test]
fn utf16_roundtrip_at_every_char_boundary() {
    let text = "let s = \"h\u{e9}\u{1F600}\";\n// \u{4e16}\nlet t = s;";
    for (offset, _) in text.char_indices() {
        let pos = position_from_offset_utf16(text, offset);
        assert_eq!(offset_from_position_utf16(text, pos), offset);
    }
    let end = position_from_offset_utf16(text, text.len());
    assert_eq!(offset_from_position_utf16(text, end), text.len());
}

#[test]
fn lsp_definition_in_program() {
    let program = parse(lex("let a = 1; fn g() -> Int { 2 } let a = 3; a").unwrap()).unwrap();
    assert_eq!(definition_in(&program, "a"), Some(Span::new(31, 40)));
    assert_eq!(definition_in(&program, "g"), Some(Span::new(11, 30)));
    assert_eq!(definition_in(&program, "b"), None);
    assert_eq!(definition_at("let a = 1; a", 11), Some(Span::new(0, 9)));
    assert_eq!(definition_at("let a = 1; b", 11), None);
    assert_eq!(definition_at("let a = @; a", 11), None);
}

#[test]
fn lsp_hover_picks_narrowest_expression() {
    let program = parse(lex("[1, 2]").unwrap()).unwrap();
    let info = check_program_with_spans(&program).unwrap();
    let (sp, text) = hover_text(&info.expr_types, 1).unwrap();
    assert_eq!(sp, Span::new(1, 2));
    assert_eq!(text, "**Type:** `Int`");
    let (sp, text) = hover_text(&info.expr_types, 0).unwrap();
    assert_eq!(sp, Span::new(0, 6));
    assert_eq!(text, "**Type:** `Array<Int>`");
    assert_eq!(hover_text(&info.expr_types, 9), None);
    assert!(hover_at("1 + true", 0).is_none());
}
