//! The parser, the diagnostic renderer and the code generation, exercised
//! on concrete scripts.

use torchc::cgen::{Fn, Stmt};
use torchc::cli::{Cli, CliError, NestedSubcmdForBuild, Subcmd};
use torchc::diagnosis::Diagnosis;
use torchc::hike::legal_extension;
use torchc::parse::{function, parser, IllegalIndentAccordingTo};
use torchc::pos::Pos;
use torchc::script::Script;
use torchc::strutil::usize_to_string;
use torchc::token::{Table, Token};

fn store(src: &str) -> Script {
    Script::script(&String::from(src))
}

fn parse(src: &str) -> Result<Stmt, torchc::diagnosis::Diag> {
    let mut s = store(src);
    parser(&mut s, &Stmt::Global(None))
}

fn global_fns(s: Stmt) -> Vec<Fn> {
    match s {
        Stmt::Global(Some(v)) => v
            .into_iter()
            .map(|st| match st {
                Stmt::Fn(Some(f)) => f,
                other => panic!("expected a function declaration, got {:?}", other),
            })
            .collect(),
        other => panic!("expected the global scope, got {:?}", other),
    }
}

fn name_of(f: &Fn) -> String {
    match &f.name.lexeme {
        Table::Id(Some(v)) => v.iter().collect(),
        other => panic!("expected an identifier name, got {:?}", other),
    }
}

#[test]
fn minimal_valid_program() {
    // `fn main` parses with no diagnostics to one function with an empty
    // body.
    let fns = global_fns(parse("fn main\n").unwrap());
    assert_eq!(fns.len(), 1);
    assert_eq!(name_of(&fns[0]), "main");
    assert!(fns[0].body.is_empty());
}

#[test]
fn sibling_functions_stay_at_the_root() {
    // `b` is a sibling, not nested: its column equals `a`'s.
    let fns = global_fns(parse("fn a\nfn b\n").unwrap());
    assert_eq!(fns.len(), 2);
    assert_eq!(name_of(&fns[0]), "a");
    assert_eq!(name_of(&fns[1]), "b");
    assert!(fns[0].body.is_empty());
    assert!(fns[1].body.is_empty());
}

#[test]
fn indentation_scoping_refuses_a_nested_function() {
    let d = parse("fn outer\n  fn nested\n").unwrap_err();
    assert_eq!(d.msg, "illegal indentation, the function statement must go in the root");
    assert_eq!((d.pos.line, d.pos.grapheme), (2, 3));
}

#[test]
fn stray_separator_does_not_hide_a_nested_function() {
    // A function statement reached from inside a body is refused
    // wherever it stands.
    let d = parse("fn a\n \nfn b\n").unwrap_err();
    assert_eq!(d.msg, "illegal indentation, the function statement must go in the root");
    assert_eq!((d.pos.line, d.pos.grapheme), (3, 1));
}

#[test]
fn top_level_illegal_token() {
    let d = parse("@\n").unwrap_err();
    assert_eq!(d.msg, "illegal token");
    assert_eq!((d.pos.line, d.pos.grapheme), (1, 1));
}

#[test]
fn body_illegal_token() {
    let d = parse("fn a\n  x\n").unwrap_err();
    assert_eq!(d.msg, "illegal token");
    assert_eq!((d.pos.line, d.pos.grapheme), (2, 3));
}

#[test]
fn expecting_function_name() {
    let d = parse("fn\n").unwrap_err();
    assert_eq!(d.msg, "expecting function name");
    // One column past the keyword and its separating space.
    assert_eq!((d.pos.line, d.pos.grapheme), (1, 4));
}

#[test]
fn illegal_function_name() {
    let d = parse("fn @\n").unwrap_err();
    assert_eq!(d.msg, "illegal function name");
    assert_eq!((d.pos.line, d.pos.grapheme), (1, 4));
}

#[test]
fn expecting_newline() {
    let d = parse("fn main x\n").unwrap_err();
    assert_eq!(d.msg, "expecting newline");
    // One column past the function name.
    assert_eq!((d.pos.line, d.pos.grapheme), (1, 8));
}

#[test]
fn keyword_not_found() {
    let mut s = store("x\n");
    let d = function(&mut s, &Stmt::Fn(None)).unwrap_err();
    assert_eq!(d.msg, "illegal, keyword 'fn' was not found");
    assert_eq!((d.pos.line, d.pos.grapheme), (1, 1));
}

#[test]
fn function_on_an_empty_stream_stays_a_prototype() {
    let mut s = store("");
    let r = function(&mut s, &Stmt::Fn(None)).unwrap();
    assert!(matches!(r, Stmt::Fn(None)));
}

#[test]
fn skips_blank_lines_between_functions() {
    let fns = global_fns(parse("\n\nfn a\n\nfn b\n\n").unwrap());
    assert_eq!(fns.len(), 2);
}

#[test]
fn diagnostic_exact_format() {
    // Input `@` yields exactly: line 1 `illegal token → <path>`; line 2
    // `1 | @` with `@` the offending literal; line 3 a caret aligned
    // under column 1 followed by `1`.
    let mut s = store("@\n");
    let d = parser(&mut s, &Stmt::Global(None)).unwrap_err();
    let diagnosis = Diagnosis::new("main.t", "");
    let report = diagnosis.diagnosis(d.msg.as_str(), d.pos, &mut s);
    assert_eq!(report.msg, "illegal token");
    assert_eq!(report.path, "main.t");
    assert_eq!(report.line, "1");
    assert_eq!(report.before, "");
    assert_eq!(report.lit, "@");
    assert_eq!(report.after, "");
    assert_eq!(report.grapheme, "1");
    assert_eq!(
        report.render(),
        "illegal token → main.t\n       1 | @\n           ↑ 1"
    );
}

#[test]
fn diagnostic_strips_leading_indentation() {
    let mut s = store("fn a\n  @\n");
    let d = parser(&mut s, &Stmt::Global(None)).unwrap_err();
    let diagnosis = Diagnosis::new("src/main.t", "");
    let report = diagnosis.diagnosis(d.msg.as_str(), d.pos, &mut s);
    assert_eq!(report.path, "src/main.t");
    assert_eq!(report.line, "2");
    assert_eq!(report.before, "");
    assert_eq!(report.lit, "@");
    // The caret column stays the raw one; the padding subtracts the
    // stripped indentation.
    assert_eq!(report.render(), "illegal token → src/main.t\n       2 | @\n           ↑ 3");
}

#[test]
fn diagnostic_rebuilds_the_line_around_the_error() {
    let mut s = store("fn a b\n");
    let d = parser(&mut s, &Stmt::Global(None)).unwrap_err();
    assert_eq!(d.msg, "expecting newline");
    let diagnosis = Diagnosis::new("main.t", "");
    let report = diagnosis.diagnosis(d.msg.as_str(), d.pos, &mut s);
    // The error position points one past `a`: at the whitespace token
    // before `b`, which becomes the emphasized literal; the line is
    // rebuilt with interior whitespace kept.
    assert_eq!(report.before, "fn a");
    assert_eq!(report.lit, " ");
    assert_eq!(report.after, "b");
}

#[test]
fn relative_path_falls_back_to_the_source_folder() {
    let mut s = store("@\n");
    let diagnosis = Diagnosis::new("app", "/somewhere/else");
    let report = diagnosis.diagnosis("illegal token", Pos { line: 1, grapheme: 1 }, &mut s);
    // A relative script path cannot be made relative to an absolute
    // working directory.
    assert_eq!(report.path, "src");
}

#[test]
fn cgen_renders_an_empty_function() {
    let f = Fn {
        name: Token { lexeme: Table::Id(Some(vec!['m', 'a', 'i', 'n'])), pos: Pos::default() },
        body: Vec::new(),
    };
    let mut out = String::new();
    f.cgen(&mut out);
    assert_eq!(out, " main{}");
}

#[test]
fn cgen_falls_back_to_the_default_identifier() {
    let f = Fn::new();
    let mut out = String::new();
    f.cgen(&mut out);
    assert_eq!(out, " _id{}");
}

#[test]
fn cgen_renders_nested_functions() {
    let inner = Fn {
        name: Token { lexeme: Table::Id(Some(vec!['i'])), pos: Pos::default() },
        body: Vec::new(),
    };
    let outer = Fn {
        name: Token { lexeme: Table::Id(Some(vec!['o'])), pos: Pos::default() },
        body: vec![Stmt::Fn(Some(inner)), Stmt::Global(None)],
    };
    let mut out = String::new();
    outer.cgen(&mut out);
    assert_eq!(out, " o{ i{}}");
}

#[test]
fn cgen_renders_a_parsed_program() {
    let fns = global_fns(parse("fn main\n").unwrap());
    let mut out = String::new();
    fns[0].cgen(&mut out);
    assert_eq!(out, " main{}");
}

#[test]
fn cli_with_no_arguments_shows_the_version() {
    let cli = Cli::parse(Some(String::from("torch")), &Vec::new()).unwrap();
    assert_eq!(cli.cmd.as_deref(), Some("torch"));
    assert_eq!(cli.subcmd, Some(Subcmd::Version));
}

#[test]
fn cli_build_and_nested_run() {
    let cli = Cli::parse(None, &vec![String::from("build")]).unwrap();
    assert_eq!(cli.subcmd, Some(Subcmd::Build(None)));
    let cli = Cli::parse(None, &vec![String::from("BUILD"), String::from("Run")]).unwrap();
    assert_eq!(cli.subcmd, Some(Subcmd::Build(Some(NestedSubcmdForBuild::Run))));
}

#[test]
fn cli_run_and_manual() {
    assert_eq!(Cli::parse(None, &vec![String::from("run")]).unwrap().subcmd, Some(Subcmd::Run));
    assert_eq!(
        Cli::parse(None, &vec![String::from("Manual")]).unwrap().subcmd,
        Some(Subcmd::Manual)
    );
}

#[test]
fn cli_refuses_unknown_subcommands() {
    assert_eq!(
        Cli::parse(None, &vec![String::from("frobnicate")]).unwrap_err(),
        CliError::IllegalSubcmd
    );
    assert_eq!(
        Cli::parse(None, &vec![String::from("build"), String::from("x")]).unwrap_err(),
        CliError::IllegalSubcmdForBuild
    );
}

#[test]
fn cli_drops_an_empty_command_name() {
    let cli = Cli::parse(Some(String::new()), &Vec::new()).unwrap();
    assert!(cli.cmd.is_none());
}

#[test]
fn legal_extensions_of_the_source_walk() {
    for ext in ["t", "h", "c", "cpp", "c++", "T", "CPP", "C++"] {
        assert!(legal_extension(&String::from(ext)), "{} should be legal", ext);
    }
    for ext in ["rs", "", "tpp", "cc"] {
        assert!(!legal_extension(&String::from(ext)), "{} should be illegal", ext);
    }
}

#[test]
fn illegal_indent_extension_depends_on_the_child() {
    let mut msg = String::from("illegal indentation");
    msg.illegal_indent_according_to(&Stmt::Global(None), &Stmt::Fn(None));
    assert_eq!(msg, "illegal indentation, the function statement must go in the root");
    let mut other = String::from("illegal indentation");
    other.illegal_indent_according_to(&Stmt::Global(None), &Stmt::Global(None));
    assert_eq!(other, "illegal indentation");
}

#[test]
fn decimal_rendering() {
    assert_eq!(usize_to_string(0), "0");
    assert_eq!(usize_to_string(7), "7");
    assert_eq!(usize_to_string(1234), "1234");
}

#[test]
fn reserved_word_is_no_function_name() {
    let d = parse("fn ext\u{65}rn\n").unwrap_err();
    assert_eq!(d.msg, "illegal function name");
    assert_eq!((d.pos.line, d.pos.grapheme), (1, 4));
}

#[test]
fn reserved_word_opens_no_statement() {
    let d = parse("ext\u{65}rn\n").unwrap_err();
    assert_eq!(d.msg, "illegal token");
    assert_eq!((d.pos.line, d.pos.grapheme), (1, 1));
}
