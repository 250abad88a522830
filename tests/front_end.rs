use dada::diagnostic::Diagnostic;
use dada::lexer::{lex, LexedFile};
use dada::parser::{Keywords, CodeParser};
use dada::query::{parse_lexed, Db};
use dada::repl::{determine_input_type, is_open_token_tree, is_repl_command, is_whitespace, parse_repl_command, Command, InputType};
use dada::span::{Offset, Span};
use dada::syntax::{GenericParameter, Item, Perm};
use dada::token::{closing_delimiter, Token};
use dada::word::{Interner, Word};

fn text(words: &Interner, w: Word) -> String {
    words.resolve(w).clone()
}

fn lexed(src: &str) -> (Interner, Keywords, LexedFile) {
    let mut words = Interner::new();
    let kw = Keywords::new(&mut words);
    let file = lex(src, &mut words);
    (words, kw, file)
}

#[test]
fn lexes_function_source() {
    let (words, _kw, file) = lexed("fn f() {}\n");
    let plain: Vec<Token> = file.tokens.iter().copied().filter(|t| t.tree().is_none()).collect();
    assert_eq!(plain.len(), 9);
    assert_eq!(plain[0].alphabetic().map(|w| text(&words, w)), Some("fn".to_string()));
    assert_eq!(plain[1], Token::Whitespace(' '));
    assert_eq!(plain[2].alphabetic().map(|w| text(&words, w)), Some("f".to_string()));
    assert_eq!(plain[3], Token::Delimiter('('));
    assert_eq!(plain[4], Token::Delimiter(')'));
    assert_eq!(plain[5], Token::Whitespace(' '));
    assert_eq!(plain[6], Token::Delimiter('{'));
    assert_eq!(plain[7], Token::Delimiter('}'));
    assert_eq!(plain[8], Token::Whitespace('\n'));
    assert!(!file.has_open_tree());
    assert_eq!(file.root.span, Span::from(0, 10));
}

#[test]
fn parses_function_item() {
    let (words, kw, file) = lexed("fn f() {}\n");
    let parsed = parse_lexed(&file, kw);
    assert!(parsed.diagnostics.is_empty());
    assert_eq!(parsed.items.len(), 1);
    match &parsed.items[0] {
        Item::Function(f) => {
            assert_eq!(text(&words, f.name.word), "f");
            assert!(f.params.is_empty());
            assert!(f.generics.is_empty());
            assert_eq!(f.span, Span::from(0, 9));
        }
        Item::Class(_) => panic!("expected a function"),
    }
}

#[test]
fn unclosed_paren_is_open_tree() {
    let (_words, _kw, file) = lexed("fn f(");
    assert!(file.has_open_tree());
    assert!(is_open_token_tree("fn f("));
    assert!(!is_open_token_tree("fn f()"));
    let tree = file.tokens.iter().find_map(|t| t.tree()).unwrap();
    assert!(tree.open);
    assert_eq!(tree.start + tree.len, file.tokens.len());
}

#[test]
fn generic_parameter_list() {
    let (words, kw, file) = lexed("[T, my U]");
    let mut p = CodeParser::new(&file, kw);
    let mut diags: Vec<Diagnostic> = Vec::new();
    let params = p.parse_generic_parameters(&mut diags);
    assert!(diags.is_empty());
    assert_eq!(params.len(), 2);
    match params[0] {
        GenericParameter::Type(n) => assert_eq!(text(&words, n.word), "T"),
        _ => panic!("expected a type parameter"),
    }
    match params[1] {
        GenericParameter::Permission(p, n) => {
            assert_eq!(p.perm, Perm::My);
            assert_eq!(text(&words, n.word), "U");
        }
        _ => panic!("expected a permission parameter"),
    }
}

#[test]
fn permission_without_name_is_reported() {
    let (_words, kw, file) = lexed("[my]");
    let mut p = CodeParser::new(&file, kw);
    let mut diags: Vec<Diagnostic> = Vec::new();
    let params = p.parse_generic_parameters(&mut diags);
    assert!(params.is_empty());
    assert_eq!(diags.len(), 1);
    assert_eq!(diags[0].message, "expected name after permission");
}

#[test]
fn unrelated_file_untouched() {
    let mut db = Db::new();
    db.update_file("a.dada", "fn a() {}".to_string());
    db.update_file("b.dada", "fn b(x) {} +".to_string());
    let before = db.diagnostics("b.dada");
    let counts = db.executions("b.dada");
    let changed = db.check_changed_at("b.dada");
    assert_eq!(counts, Some((1, 1, 1)));
    db.update_file("a.dada", "fn a(y) {}".to_string());
    let after = db.diagnostics("b.dada");
    assert_eq!(db.executions("b.dada"), counts);
    assert_eq!(db.check_changed_at("b.dada"), changed);
    assert_eq!(before.len(), after.len());
    for (x, y) in before.iter().zip(after.iter()) {
        assert!(x.same_as(y));
    }
}

#[test]
fn atomic_without_name() {
    let (_words, kw, file) = lexed("(atomic)");
    let mut p = CodeParser::new(&file, kw);
    let mut diags: Vec<Diagnostic> = Vec::new();
    let params = p.parse_parameter_list(&mut diags).unwrap();
    assert!(params.is_empty());
    assert_eq!(diags.len(), 1);
    assert_eq!(diags[0].message, "expected parameter name after `atomic`");
    assert_eq!(diags[0].labels.len(), 1);
    assert_eq!(diags[0].labels[0].span, Span::from(1, 7));
}

#[test]
fn atomic_without_name_keeps_later_parameters() {
    let (words, kw, file) = lexed("(atomic, x: T)");
    let mut p = CodeParser::new(&file, kw);
    let mut diags: Vec<Diagnostic> = Vec::new();
    let params = p.parse_parameter_list(&mut diags).unwrap();
    assert_eq!(diags.len(), 1);
    assert_eq!(params.len(), 1);
    assert_eq!(text(&words, params[0].name.word), "x");
    assert_eq!(text(&words, params[0].ty.unwrap().word), "T");
}

#[test]
fn check_twice_is_idempotent() {
    let mut db = Db::new();
    db.update_file("f.dada", "fn f(atomic) {}\nclass".to_string());
    let first = db.diagnostics("f.dada");
    let counts = db.executions("f.dada");
    let second = db.diagnostics("f.dada");
    assert_eq!(db.executions("f.dada"), counts);
    assert_eq!(first.len(), 2);
    assert_eq!(first.len(), second.len());
    for (x, y) in first.iter().zip(second.iter()) {
        assert!(x.same_as(y));
    }
}

#[test]
fn parameter_spans_are_unions() {
    let (_words, kw, file) = lexed("(atomic x: T, y)");
    let mut p = CodeParser::new(&file, kw);
    let mut diags: Vec<Diagnostic> = Vec::new();
    let params = p.parse_parameter_list(&mut diags).unwrap();
    assert!(diags.is_empty());
    assert_eq!(params.len(), 2);
    assert_eq!(params[0].atomic, Some(Span::from(1, 7)));
    assert_eq!(params[0].span, Span::from(1, 12));
    assert_eq!(params[1].span, Span::from(14, 15));
    for d in &params {
        assert!(d.span.start.0 <= d.span.end.0);
    }
}

#[test]
fn parsing_is_deterministic() {
    let src = "async fn g[T](a: T, atomic b) -> T { x }\nclass P(x, y)\n+";
    let mut one = Db::new();
    let mut two = Db::new();
    one.update_file("g.dada", src.to_string());
    two.update_file("g.dada", src.to_string());
    let i1 = one.items("g.dada");
    let i2 = two.items("g.dada");
    assert_eq!(i1.len(), 2);
    assert_eq!(i1.len(), i2.len());
    for (x, y) in i1.iter().zip(i2.iter()) {
        assert!(x.same_as(y));
    }
    let d1 = one.diagnostics("g.dada");
    let d2 = two.diagnostics("g.dada");
    assert_eq!(d1.len(), 1);
    assert_eq!(d1.len(), d2.len());
    for (x, y) in d1.iter().zip(d2.iter()) {
        assert!(x.same_as(y));
    }
}

#[test]
fn mismatched_closer_is_unknown() {
    let (_words, _kw, file) = lexed("([)]");
    assert_eq!(file.tokens[0], Token::Delimiter('('));
    assert!(file.tokens[1].tree().is_some());
    assert_eq!(file.tokens[2], Token::Delimiter('['));
    assert!(file.tokens[3].tree().is_some());
    assert_eq!(file.tokens[4], Token::Unknown(')'));
    assert_eq!(file.tokens[5], Token::Delimiter(']'));
    let inner = file.tokens[3].tree().unwrap();
    assert!(!inner.open);
    assert_eq!(inner.start + inner.len, 5);
    let outer = file.tokens[1].tree().unwrap();
    assert!(outer.open);
    assert_eq!(outer.start + outer.len, file.tokens.len());
}

#[test]
fn closed_trees_match_their_openers() {
    let (_words, _kw, file) = lexed("{ a [b (c)] }");
    for (i, t) in file.tokens.iter().enumerate() {
        if let Some(tree) = t.tree() {
            assert!(!tree.open);
            let open = match file.tokens[i - 1] {
                Token::Delimiter(c) => c,
                _ => panic!("tree without opener"),
            };
            assert_eq!(file.tokens[tree.start + tree.len], Token::Delimiter(closing_delimiter(open)));
        }
    }
}

#[test]
fn repl_commands() {
    assert!(matches!(parse_repl_command(":exit"), Ok(Command::Exit)));
    assert!(matches!(parse_repl_command(":skip"), Ok(Command::SkipStep)));
    assert!(matches!(parse_repl_command(":reset"), Ok(Command::Reset)));
    match parse_repl_command(":nope") {
        Err(e) => assert_eq!(e.text, ":nope"),
        Ok(_) => panic!("unknown command accepted"),
    }
}

#[test]
fn input_types() {
    assert!(is_whitespace(" \n\t"));
    assert!(!is_whitespace(" x"));
    assert!(is_repl_command("  :exit"));
    assert!(!is_repl_command("x :exit"));
    assert_eq!(determine_input_type("   "), InputType::Whitespace);
    assert_eq!(determine_input_type(":reset"), InputType::ReplCommand);
    assert_eq!(determine_input_type("fn f() {"), InputType::OpenTokenTree);
    assert_eq!(determine_input_type("fn f() {}"), InputType::Items);
    assert_eq!(determine_input_type("1 + 2"), InputType::Expr);
}

#[test]
fn span_operations() {
    let a = Span::from(2, 5);
    let b = Span::from(7, 9);
    assert_eq!(a.len(), 3);
    assert_eq!(a.to(b), Span::from(2, 9));
    assert_eq!(a.to(a), a);
    assert_eq!(a.start(), Span::from(2, 2));
    assert_eq!(Span::zero(), Span::from(0, 0));
    assert_eq!(Offset(4).add_len(3), Offset(7));
    assert_eq!(Offset(9).len_since(Offset(4)), 5);
    assert_eq!(u32::from(Offset::from(12u32)), 12);
}

#[test]
fn interner_gives_one_handle_per_text() {
    let mut words = Interner::new();
    let a = words.intern("alpha".to_string());
    let b = words.intern("beta".to_string());
    let c = words.intern("alpha".to_string());
    assert_eq!(a, c);
    assert_ne!(a, b);
    assert_eq!(words.len(), 2);
    assert_eq!(words.resolve(b), "beta");
}

#[test]
fn token_widths_count_utf8_bytes() {
    let (words, _kw, file) = lexed("é ü+\"hi\" r\"x\" 1_000");
    assert_eq!(file.tokens[0].span_len(&words), 2);
    assert_eq!(file.spans[0], Span::from(0, 2));
    assert_eq!(file.tokens[1], Token::Whitespace(' '));
    assert_eq!(file.tokens[3], Token::Op('+'));
    assert!(matches!(file.tokens[4], Token::StringLiteral(_)));
    assert_eq!(file.tokens[4].span_len(&words), 4);
    assert!(matches!(file.tokens[6], Token::Prefix(_)));
    assert!(matches!(file.tokens[9], Token::Number(_)));
    assert_eq!(file.root.span.end.0, 21);
}

#[test]
fn format_string_and_unknown() {
    let (_words, _kw, file) = lexed("\"a {b}\" $");
    assert!(matches!(file.tokens[0], Token::FormatString(_)));
    assert_eq!(file.tokens[2], Token::Unknown('$'));
}

#[test]
fn noop_edit_stops_at_lexer() {
    let mut db = Db::new();
    db.update_file("n.dada", "fn n() {}".to_string());
    db.diagnostics("n.dada");
    db.update_file("n.dada", "fn n() {}".to_string());
    db.diagnostics("n.dada");
    assert_eq!(db.executions("n.dada"), Some((2, 1, 1)));
    db.update_file("n.dada", "fn n(x) {}".to_string());
    db.diagnostics("n.dada");
    assert_eq!(db.executions("n.dada"), Some((3, 2, 2)));
}

#[test]
fn reported_errors() {
    let mut db = Db::new();
    db.update_file("e.dada", "fn f(x y) {}\n+ -\nfn g()\nclass C(a)".to_string());
    let d = db.diagnostics("e.dada");
    let messages: Vec<String> = d.iter().map(|x| x.message.clone()).collect();
    assert_eq!(
        messages,
        vec![
            "extra tokens after parameters".to_string(),
            "expected an item".to_string(),
            "expected function body".to_string(),
        ]
    );
    for w in d.windows(2) {
        assert!(w[0].span.start.0 <= w[1].span.start.0);
    }
    let items = db.items("e.dada");
    assert_eq!(items.len(), 2);
    assert!(db.diagnostics("missing.dada").is_empty());
}

#[test]
fn snapshots_agree_and_stay_independent() {
    let mut db = Db::new();
    db.update_file("s.dada", "fn s(atomic) {}".to_string());
    let d = db.diagnostics("s.dada");
    let mut snap = db.snapshot();
    assert_eq!(snap.revision(), db.revision());
    assert_eq!(snap.executions("s.dada"), db.executions("s.dada"));
    let ds = snap.diagnostics("s.dada");
    assert_eq!(snap.executions("s.dada"), Some((1, 1, 1)));
    assert_eq!(d.len(), ds.len());
    for (x, y) in d.iter().zip(ds.iter()) {
        assert!(x.same_as(y));
    }
    let items = db.items("s.dada");
    let snap_items = snap.items("s.dada");
    assert_eq!(items.len(), 1);
    assert!(items[0].same_as(&snap_items[0]));
    snap.update_file("s.dada", "fn s(x) {}".to_string());
    assert!(snap.diagnostics("s.dada").is_empty());
    assert_eq!(db.diagnostics("s.dada").len(), 1);
    assert_eq!(db.revision(), 1);
}

#[test]
fn return_type_node_spans_arrow_to_type() {
    let mut db = Db::new();
    db.update_file("t.dada", "fn t() -> T {}\nfn u() -> {}".to_string());
    let items = db.items("t.dada");
    assert_eq!(items.len(), 2);
    match &items[0] {
        Item::Function(f) => {
            let rt = f.return_ty.unwrap();
            assert_eq!(rt.span, Span::from(7, 11));
            assert!(rt.ty.is_some());
        }
        Item::Class(_) => panic!("expected a function"),
    }
    match &items[1] {
        Item::Function(f) => {
            let rt = f.return_ty.unwrap();
            assert!(rt.ty.is_none());
            assert_eq!(rt.span, Span::from(22, 24));
        }
        Item::Class(_) => panic!("expected a function"),
    }
    let d = db.diagnostics("t.dada");
    assert_eq!(d.len(), 1);
    assert_eq!(d[0].message, "expected return type after `->`");
}

#[test]
fn matching_closer_closes_innermost_tree() {
    let (_words, _kw, file) = lexed("(]))");
    assert_eq!(file.tokens[0], Token::Delimiter('('));
    assert_eq!(file.tokens[2], Token::Unknown(']'));
    assert_eq!(file.tokens[3], Token::Delimiter(')'));
    assert_eq!(file.tokens[4], Token::Unknown(')'));
    let tree = file.tokens[1].tree().unwrap();
    assert!(!tree.open);
    assert_eq!(tree.start + tree.len, 3);
    assert!(!is_open_token_tree("()"));
}
