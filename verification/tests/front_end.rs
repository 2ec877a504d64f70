//! The tokenizer, the retokenizer and the token store, exercised on
//! concrete scripts.

use torchc::lex::{lexer, ToScript};
use torchc::lits::Lit;
use torchc::pos::Pos;
use torchc::script::{Feature, Mode, Script};
use torchc::token::{Table, Token};

fn store(src: &str) -> Script {
    Script::script(&String::from(src))
}

fn all_tokens(s: &mut Script) -> Vec<Token> {
    s.reset();
    let mut out = Vec::new();
    while let Some(t) = s.token(Mode::Next(Feature::Default)) {
        out.push(t);
    }
    out
}

/// The source characters one finalized token stands for.
fn render_simple(t: &Token) -> String {
    match &t.lexeme {
        Table::EndOfStmt => String::from("\n"),
        Table::Whitespace => String::from(" "),
        Table::Fn => String::from("fn"),
        Table::KeywordExtern => String::from("ext\u{65}rn"),
        Table::DivisionSym => String::from("/"),
        Table::Cmt(_) => String::from("//"),
        Table::Id(Some(v)) => v.iter().collect(),
        Table::StringLit(Some(v)) => v.iter().collect(),
        Table::CharLit(Some(v)) => v.iter().collect(),
        Table::Illegal(Some(v)) => v.iter().collect(),
        _ => String::new(),
    }
}

/// The source characters a finalized sequence stands for: a folded
/// comment renders its marker and its payload; the terminating separator
/// stands in the main stream.
fn render_all(toks: &[Token]) -> String {
    let mut out = String::new();
    for t in toks {
        match &t.lexeme {
            Table::Cmt(Some(p)) => {
                out.push_str("//");
                for q in p {
                    out.push_str(&render_simple(q));
                }
            }
            _ => out.push_str(&render_simple(t)),
        }
    }
    out
}

#[test]
fn tokenizes_a_minimal_program() {
    let mut s = store("fn main\n");
    let toks = all_tokens(&mut s);
    assert_eq!(toks.len(), 4);
    assert!(matches!(toks[0].lexeme, Table::Fn));
    assert_eq!((toks[0].pos.line, toks[0].pos.grapheme), (1, 1));
    assert!(matches!(toks[1].lexeme, Table::Whitespace));
    assert_eq!((toks[1].pos.line, toks[1].pos.grapheme), (1, 3));
    match &toks[2].lexeme {
        Table::Id(Some(v)) => assert_eq!(v.iter().collect::<String>(), "main"),
        other => panic!("expected an identifier, got {:?}", other),
    }
    assert_eq!((toks[2].pos.line, toks[2].pos.grapheme), (1, 4));
    assert!(matches!(toks[3].lexeme, Table::EndOfStmt));
    assert_eq!((toks[3].pos.line, toks[3].pos.grapheme), (1, 8));
}

#[test]
fn synthesizes_the_trailing_separator() {
    let mut s = store("fn main");
    let toks = all_tokens(&mut s);
    assert_eq!(toks.len(), 4);
    assert!(matches!(toks[3].lexeme, Table::EndOfStmt));
    assert_eq!((toks[3].pos.line, toks[3].pos.grapheme), (1, 8));
}

#[test]
fn empty_input_gives_no_tokens() {
    let mut s = store("");
    assert!(all_tokens(&mut s).is_empty());
}

#[test]
fn collapses_line_break_runs() {
    let mut s = store("a\r\n\r\n\nb\n");
    let toks = all_tokens(&mut s);
    assert_eq!(toks.len(), 4);
    assert!(matches!(toks[0].lexeme, Table::Id(_)));
    assert!(matches!(toks[1].lexeme, Table::EndOfStmt));
    assert!(matches!(toks[2].lexeme, Table::Id(_)));
    assert_eq!((toks[2].pos.line, toks[2].pos.grapheme), (4, 1));
    assert!(matches!(toks[3].lexeme, Table::EndOfStmt));
}

#[test]
fn string_literal_keeps_its_quotes() {
    let mut s = store("\"ab c\"\n");
    let toks = all_tokens(&mut s);
    match &toks[0].lexeme {
        Table::StringLit(Some(v)) => assert_eq!(v.iter().collect::<String>(), "\"ab c\""),
        other => panic!("expected a string literal, got {:?}", other),
    }
}

#[test]
fn char_literal_keeps_its_quotes() {
    let mut s = store("'x'\n");
    let toks = all_tokens(&mut s);
    match &toks[0].lexeme {
        Table::CharLit(Some(v)) => assert_eq!(v.iter().collect::<String>(), "'x'"),
        other => panic!("expected a character literal, got {:?}", other),
    }
}

#[test]
fn division_symbol_and_comment_marker() {
    let mut s = store("a/b\n");
    let toks = all_tokens(&mut s);
    assert!(matches!(toks[1].lexeme, Table::DivisionSym));

    let mut s2 = store("a//b\n");
    let toks2 = all_tokens(&mut s2);
    assert!(matches!(toks2[1].lexeme, Table::Cmt(Some(_))));
}

#[test]
fn folds_a_single_line_comment() {
    let mut s = store("//ab c\nx\n");
    let toks = all_tokens(&mut s);
    // The folded comment, its terminating separator, then the code line.
    assert_eq!(toks.len(), 4);
    match &toks[0].lexeme {
        Table::Cmt(Some(p)) => {
            assert_eq!(p.len(), 3);
            assert!(matches!(p[0].lexeme, Table::Id(_)));
            assert!(matches!(p[1].lexeme, Table::Whitespace));
            assert!(matches!(p[2].lexeme, Table::Id(_)));
        }
        other => panic!("expected a folded comment, got {:?}", other),
    }
    assert!(matches!(toks[1].lexeme, Table::EndOfStmt));
    assert!(matches!(toks[2].lexeme, Table::Id(_)));
    assert!(matches!(toks[3].lexeme, Table::EndOfStmt));
}

#[test]
fn folds_a_multiline_comment_by_indentation() {
    // The continuation line is indented past the marker's column, so its
    // separator is absorbed into the payload; the terminating one is not.
    let mut s = store("//a\n b\nc\n");
    let toks = all_tokens(&mut s);
    assert_eq!(toks.len(), 4);
    match &toks[0].lexeme {
        Table::Cmt(Some(p)) => {
            let kinds: Vec<bool> = p.iter().map(|t| matches!(t.lexeme, Table::EndOfStmt)).collect();
            assert_eq!(kinds, vec![false, true, false, false]);
        }
        other => panic!("expected a folded comment, got {:?}", other),
    }
    assert!(matches!(toks[1].lexeme, Table::EndOfStmt));
    match &toks[2].lexeme {
        Table::Id(Some(v)) => assert_eq!(v.iter().collect::<String>(), "c"),
        other => panic!("expected an identifier, got {:?}", other),
    }
}

#[test]
fn empty_comment_keeps_the_bare_marker() {
    // No content stands between the marker and its terminator, so the
    // comment keeps its payload-less form.
    let mut s = store("//\nx\n");
    let toks = all_tokens(&mut s);
    assert_eq!(toks.len(), 4);
    assert!(matches!(toks[0].lexeme, Table::Cmt(None)));
    assert!(matches!(toks[1].lexeme, Table::EndOfStmt));
    assert!(matches!(toks[2].lexeme, Table::Id(_)));
    assert!(matches!(toks[3].lexeme, Table::EndOfStmt));
}

#[test]
fn lossless_round_trip_of_clean_text() {
    for src in [
        "fn main\n",
        "fn a\nfn b\n",
        "a b c\n",
        "//ab c\nx\n",
        "//a\n b\nc\n",
        "x //note\ny\n",
        "\"str lit\"\n'c'\n",
        "a/b\n",
        "@#\n",
        "ext\u{65}rn y\n",
    ] {
        let mut s = store(src);
        let toks = all_tokens(&mut s);
        assert_eq!(render_all(&toks), src, "round trip of {:?}", src);
    }
}

#[test]
fn positions_never_go_backwards() {
    // The last input runs a quote literal across a line break to the end
    // of the input: the synthesized separator stands at the end-of-input
    // position.
    for src in [
        "fn main\n",
        "//a\n b\nc\n",
        "a b\n\nc d\ne\n",
        "fn outer\n  fn nested\n",
        "  \"x\ny",
    ] {
        let mut s = store(src);
        let toks = all_tokens(&mut s);
        for w in toks.windows(2) {
            let (a, b) = (&w[0].pos, &w[1].pos);
            assert!(
                b.line > a.line || (b.line == a.line && b.grapheme >= a.grapheme),
                "positions went backwards in {:?}: {:?} then {:?}",
                src,
                a,
                b
            );
        }
    }
}

#[test]
fn every_nonempty_stream_ends_with_one_separator() {
    for src in ["fn main", "fn main\n", "a\n\n\n", "//c", "x//c", "@"] {
        let mut s = store(src);
        let toks = all_tokens(&mut s);
        assert!(!toks.is_empty());
        assert!(matches!(toks[toks.len() - 1].lexeme, Table::EndOfStmt), "input {:?}", src);
        if toks.len() >= 2 {
            assert!(
                !matches!(toks[toks.len() - 2].lexeme, Table::EndOfStmt),
                "two separators at the end for {:?}",
                src
            );
        }
    }
}

#[test]
fn peek_does_not_move_the_cursor() {
    let mut s = store("a b\n");
    let first = s.token(Mode::Peek(Feature::Code)).unwrap();
    let again = s.token(Mode::Peek(Feature::Code)).unwrap();
    assert!(matches!(first.lexeme, Table::Id(_)));
    assert!(matches!(again.lexeme, Table::Id(_)));
    assert_eq!(first.pos.grapheme, again.pos.grapheme);
    let next = s.token(Mode::Next(Feature::Code)).unwrap();
    assert_eq!(next.pos.grapheme, first.pos.grapheme);
}

#[test]
fn code_view_skips_whitespace_and_comments() {
    let mut s = store("a //c\nb\n");
    let mut kinds = Vec::new();
    while let Some(t) = s.token(Mode::Next(Feature::Code)) {
        kinds.push(match t.lexeme {
            Table::Id(_) => "id",
            Table::EndOfStmt => "eos",
            _ => "other",
        });
    }
    assert_eq!(kinds, vec!["id", "eos", "id", "eos"]);
}

#[test]
fn code_and_comments_view_skips_only_whitespace() {
    let mut s = store("a //c\nb\n");
    let mut saw_comment = false;
    while let Some(t) = s.token(Mode::Next(Feature::CodeAndCmts)) {
        if matches!(t.lexeme, Table::Cmt(_)) {
            saw_comment = true;
        }
        assert!(!matches!(t.lexeme, Table::Whitespace));
    }
    assert!(saw_comment);
}

#[test]
fn reset_rewinds_to_the_beginning() {
    let mut s = store("a b\n");
    let first = s.token(Mode::Next(Feature::Default)).unwrap();
    s.token(Mode::Next(Feature::Default));
    s.reset();
    let again = s.token(Mode::Next(Feature::Default)).unwrap();
    assert_eq!(first.pos.grapheme, again.pos.grapheme);
}

#[test]
fn position_advance_counts_lines_and_graphemes() {
    let mut p = Pos::default();
    assert_eq!((p.line, p.grapheme), (1, 0));
    assert_eq!(p.advance('a'), 'a');
    assert_eq!((p.line, p.grapheme), (1, 1));
    p.advance('\n');
    assert_eq!((p.line, p.grapheme), (2, 0));
}

#[test]
fn fresh_token_has_no_lexeme() {
    let t = Token::new();
    assert!(matches!(t.lexeme, Table::Illegal(None)));
    assert_eq!((t.pos.line, t.pos.grapheme), (1, 0));
    assert!(t.lit().is_none());
    assert_eq!(t.len(), 0);
}

#[test]
fn table_is_compares_kinds_only() {
    let a = Table::Id(Some(vec!['a']));
    let b = Table::Id(None);
    assert!(a.is(&b));
    assert!(!a.is(&Table::Fn));
    assert!(Table::Cmt(None).is(&Table::Cmt(None)));
    assert!(Table::default().is(&Table::Illegal(None)));
}

#[test]
fn token_table_resolves_reserved_literals() {
    let texts: Vec<String> = [Table::Fn, Table::Whitespace, Table::EndOfStmt, Table::DivisionSym, Table::Cmt(None)]
        .into_iter()
        .map(|t| t.lit().unwrap().to_text())
        .collect();
    assert_eq!(texts, vec!["fn", " ", ";", "/", "//"]);
}

#[test]
fn folded_comment_literal_concatenates_its_payload() {
    let mut s = store("//ab c\nx\n");
    let toks = all_tokens(&mut s);
    let lit = toks[0].lit().unwrap().to_text();
    assert_eq!(lit, "//ab c");
    assert_eq!(toks[0].len(), 6);
}

#[test]
fn clean_length_counts_the_literal() {
    let id = Table::Id(Some(vec!['m', 'a', 'i', 'n']));
    assert_eq!(id.len(), 4);
    assert_eq!(Table::Fn.len(), 2);
    match Lit::Reserved("fn") {
        l => assert_eq!(l.to_chars(), vec!['f', 'n']),
    }
}

#[test]
fn comment_payload_reproduces_the_source_slice() {
    // The payload literals, the re-emitted final separator left aside,
    // reproduce the slice from just after the marker to just before the
    // terminating separator — continuation lines included.
    let cases = [
        ("x //a b\ny\n", "a b"),
        ("//a\n b\nc\n", "a\n b"),
        ("// \nx\n", " "),
    ];
    for (src, slice) in cases {
        let mut s = store(src);
        let toks = all_tokens(&mut s);
        let payload = toks
            .iter()
            .find_map(|t| match &t.lexeme {
                Table::Cmt(Some(p)) => Some(p),
                _ => None,
            })
            .expect("a folded comment");
        let mut rendered = String::new();
        for t in payload {
            rendered.push_str(&render_simple(t));
        }
        assert_eq!(rendered, slice, "payload of {:?}", src);
    }
}

#[test]
fn filter_copies_what_remains_ahead_of_the_cursor() {
    let mut s = store("a b\n");
    s.token(Mode::Next(Feature::Default));
    let mut rest = s.filter();
    let toks = all_tokens(&mut rest);
    // The identifier was consumed; whitespace, the second identifier and
    // the separator remain.
    assert_eq!(toks.len(), 3);
    assert!(matches!(toks[0].lexeme, Table::Whitespace));
}

#[test]
fn character_cursor_peeks_without_advancing() {
    let mut c = String::from("ab").to_script();
    assert_eq!(c.peek_char(), Some('a'));
    assert_eq!(c.peek_char(), Some('a'));
    assert_eq!(c.next_char(), Some('a'));
    assert_eq!(c.next_char(), Some('b'));
    assert_eq!(c.next_char(), None);
    assert_eq!(c.peek_char(), None);
}

#[test]
fn lexer_produces_one_token_per_call() {
    let mut c = String::from("fn a\n").to_script();
    let mut kinds = Vec::new();
    while let Some(t) = lexer(&mut c) {
        kinds.push(match t.lexeme {
            Table::Fn => "fn",
            Table::Whitespace => "ws",
            Table::Id(_) => "id",
            Table::EndOfStmt => "eos",
            _ => "other",
        });
    }
    assert_eq!(kinds, vec!["fn", "ws", "id", "eos"]);
}

#[test]
fn carriage_returns_alone_give_no_tokens() {
    let mut s = store("\r\r");
    assert!(all_tokens(&mut s).is_empty());
}

#[test]
fn whitespace_runs_collapse_to_one_token() {
    // A maximal run of spaces and tabs becomes a single whitespace token,
    // so rendering it back gives a single space.
    let mut s = store("fn\t  a\n");
    let toks = all_tokens(&mut s);
    assert_eq!(toks.len(), 4);
    assert!(matches!(toks[1].lexeme, Table::Whitespace));
    assert_eq!(render_all(&toks), "fn a\n");
}

#[test]
fn both_reserved_words_become_keywords() {
    let mut s = store("fn ext\u{65}rn externs\n");
    let toks = all_tokens(&mut s);
    assert!(matches!(toks[0].lexeme, Table::Fn));
    assert!(matches!(toks[2].lexeme, Table::KeywordExtern));
    // A longer word that merely starts with a reserved one stays a name.
    match &toks[4].lexeme {
        Table::Id(Some(v)) => assert_eq!(v.iter().collect::<String>(), "externs"),
        other => panic!("expected an identifier, got {:?}", other),
    }
    assert_eq!(toks[2].len(), 6);
    assert_eq!(toks[2].lit().unwrap().to_text(), "ext\u{65}rn");
}
