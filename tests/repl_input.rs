use dada::query::Db;
use dada::repl::{continue_input, next_step, parse_items, try_parse_thing, Command, ItemBuffer, ParsedThing, Step};

#[test]
fn item_buffer_keeps_first_order_and_replaces() {
    let mut buffer = ItemBuffer::new();
    buffer.add_items(vec![
        ("f".to_string(), "fn f() {}".to_string()),
        ("C".to_string(), "class C(x)".to_string()),
    ]);
    buffer.add_items(vec![("f".to_string(), "fn f(a) {}".to_string())]);
    assert_eq!(buffer.create_items_source(), "fn f(a) {}\n\nclass C(x)\n\n");
}

#[test]
fn expression_source_wraps_the_expression() {
    let mut buffer = ItemBuffer::new();
    buffer.add_items(vec![("g".to_string(), "fn g() {}".to_string())]);
    assert_eq!(buffer.expr_source("1 + 2"), "fn g() {}\n\nasync fn __repl_expr() {\n    1 + 2\n}");
}

#[test]
fn items_are_cut_out_of_the_input() {
    let items = parse_items("fn f(x) { x }\nclass Point(x, y)\n");
    assert_eq!(items.len(), 2);
    assert_eq!(items[0], ("f".to_string(), "fn f(x) { x }".to_string()));
    assert_eq!(items[1], ("Point".to_string(), "class Point(x, y)".to_string()));
}

#[test]
fn input_becomes_steps() {
    assert!(matches!(next_step(try_parse_thing("  ".to_string()).ok().unwrap()), Some(Step::ExecCommand(Command::SkipStep))));
    assert!(matches!(next_step(try_parse_thing(":exit".to_string()).ok().unwrap()), Some(Step::ExecCommand(Command::Exit))));
    assert!(try_parse_thing(":what".to_string()).is_err());
    match try_parse_thing("fn f(".to_string()) {
        Ok(ParsedThing::OpenTokenTree(t)) => assert_eq!(t, "fn f("),
        _ => panic!("expected unfinished input"),
    }
    assert!(next_step(try_parse_thing("fn f(".to_string()).ok().unwrap()).is_none());
    match next_step(try_parse_thing("x + 1".to_string()).ok().unwrap()) {
        Some(Step::EvalExpr(t)) => assert_eq!(t, "x + 1"),
        _ => panic!("expected an expression"),
    }
    match next_step(try_parse_thing("fn h() {}".to_string()).ok().unwrap()) {
        Some(Step::AddItems(items)) => assert_eq!(items, vec![("h".to_string(), "fn h() {}".to_string())]),
        _ => panic!("expected items"),
    }
}

#[test]
fn unfinished_input_continues() {
    let text = continue_input("fn f(".to_string(), ") {}");
    assert_eq!(text, "fn f(\n) {}");
    assert!(matches!(try_parse_thing(text), Ok(ParsedThing::Items(_))));
}

#[test]
fn root_tree_covers_the_file() {
    let mut db = Db::new();
    db.update_file("r.dada", "fn r() {}".to_string());
    let root = db.root_tree("r.dada").unwrap();
    assert_eq!(root.start, 0);
    assert_eq!(root.span.end.0, 9);
    assert!(!root.open);
    assert!(db.root_tree("absent.dada").is_none());
    assert_eq!(db.revision(), 1);
}
