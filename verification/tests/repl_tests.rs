use docdb::collection::Collection;
use docdb::collection::Files;
use docdb::float::Float;
use docdb::journal::FileAction;
use docdb::pager::Action;
use docdb::pager::StorageError;
use docdb::repl::open_failure;
use docdb::repl::parse_command;
use docdb::repl::split_first_word;
use docdb::repl::trimmed;
use docdb::repl::Command;
use docdb::repl::Shell;
use docdb::repl::Step;

fn convert(text: String) -> Option<Float> {
    text.parse::<f64>().ok().map(|x| Float::from_bits(x.to_bits()))
}

fn show(f: Float) -> String {
    f64::from_bits(f.to_bits()).to_string()
}

fn empty_collection() -> Collection {
    let none: [u8; 0] = [];
    let files =
        Files { heap_file: &none, heap_log: Vec::new(), index_file: &none, index_log: Vec::new() };
    Collection::open(files).ok().unwrap()
}

/// Carries out a line and returns what is printed. Collections start empty.
fn answer(shell: &mut Shell, line: &str) -> String {
    match shell.execute(line, &convert, &show) {
        Step::Nothing => String::new(),
        Step::Print(text) => text,
        Step::Open(name) => shell.opened(&name, empty_collection()),
        Step::Exit => "exit".to_string(),
    }
}

fn play(shell: &mut Shell, script: &[(&str, &str)]) {
    for (line, expected) in script {
        assert_eq!(&answer(shell, line), expected, "{line}");
    }
}

#[test]
fn words_are_split_off() {
    let pair = |text: &str| split_first_word(text);
    assert_eq!(pair("use people"), ("use".to_string(), "people".to_string()));
    assert_eq!(pair("  a \t b  c "), ("a".to_string(), "b  c".to_string()));
    assert_eq!(pair("  update   7 {} "), ("update".to_string(), "7 {}".to_string()));
    assert_eq!(pair(" exit"), ("exit".to_string(), "".to_string()));
    assert_eq!(pair("word"), ("word".to_string(), "".to_string()));
    assert_eq!(pair("word  "), ("word".to_string(), "".to_string()));
    assert_eq!(pair(""), ("".to_string(), "".to_string()));
    assert_eq!(pair("é\u{2003}ü"), ("é".to_string(), "ü".to_string()));
    for text in ["", " ", " a b ", "\u{a0}x\n", "a", "\t\t a \t"] {
        assert_eq!(trimmed(text), text.trim());
    }
}

#[test]
fn lines_are_commands() {
    assert!(matches!(parse_command("   "), Command::Nothing));
    assert!(matches!(parse_command(" exit "), Command::Exit));
    assert!(matches!(parse_command("quit now"), Command::Exit));
    assert!(matches!(parse_command("help"), Command::Help));
    assert!(matches!(parse_command("use  a b "), Command::Use(rest) if rest == "a b"));
    assert!(matches!(parse_command("insert {}"), Command::Insert(rest) if rest == "{}"));
    assert!(matches!(parse_command("find"), Command::Find(rest) if rest.is_empty()));
    assert!(matches!(parse_command("get 1"), Command::Get(rest) if rest == "1"));
    assert!(matches!(parse_command("update 1 {}"), Command::Update(rest) if rest == "1 {}"));
    assert!(matches!(parse_command("delete 1"), Command::Delete(rest) if rest == "1"));
    assert!(matches!(parse_command("Use x"), Command::Unknown(word) if word == "Use"));
}

#[test]
fn the_walkthrough() {
    let mut shell = Shell::new();
    assert_eq!(shell.prompt(), "(no collection)> ");
    play(&mut shell, &[("use people", "using collection 'people'")]);
    assert_eq!(shell.prompt(), "people> ");
    play(
        &mut shell,
        &[
            (r#"insert {"name": "Alice", "age": 30}"#, "inserted _id = 0000000000000000"),
            (r#"insert {"name": "Bob", "age": 25}"#, "inserted _id = 0000000000000001"),
            (
                r#"insert {"name": "Carol", "age": 45, "tags": ["vip", "founder"]}"#,
                "inserted _id = 0000000000000002",
            ),
            (
                "find",
                r#"{"name": "Alice", "age": 30, "_id": "0000000000000000"}
{"name": "Bob", "age": 25, "_id": "0000000000000001"}
{"name": "Carol", "age": 45, "tags": ["vip", "founder"], "_id": "0000000000000002"}"#,
            ),
            (
                r#"find {"age": {"$gt": 26}}"#,
                r#"{"name": "Alice", "age": 30, "_id": "0000000000000000"}
{"name": "Carol", "age": 45, "tags": ["vip", "founder"], "_id": "0000000000000002"}"#,
            ),
            (
                "get 0000000000000001",
                r#"{"name": "Bob", "age": 25, "_id": "0000000000000001"}"#,
            ),
            (r#"update 0000000000000001 {"name": "Bob", "age": 26}"#, "updated"),
            ("delete 0000000000000002", "deleted"),
            (
                "find",
                r#"{"name": "Alice", "age": 30, "_id": "0000000000000000"}
{"name": "Bob", "age": 26, "_id": "0000000000000001"}"#,
            ),
            ("exit", "exit"),
        ],
    );
}

#[test]
fn several_collections_stay_open() {
    let mut shell = Shell::new();
    play(
        &mut shell,
        &[
            ("use people", "using collection 'people'"),
            (r#"insert {"name": "Alice"}"#, "inserted _id = 0000000000000000"),
            ("use products", "using collection 'products'"),
            (r#"insert {"title": "Keyboard", "price": 49.99}"#, "inserted _id = 0000000000000000"),
            (
                "find",
                r#"{"title": "Keyboard", "price": 49.99, "_id": "0000000000000000"}"#,
            ),
            ("use people", "using collection 'people'"),
            ("find", r#"{"name": "Alice", "_id": "0000000000000000"}"#),
        ],
    );
}

#[test]
fn every_failure_is_answered() {
    let mut shell = Shell::new();
    for line in ["insert {}", "find", "get 1", "update 1 {}", "delete 1"] {
        assert_eq!(
            answer(&mut shell, line),
            "no collection selected — try 'use <name>' first"
        );
    }
    play(
        &mut shell,
        &[
            ("", ""),
            ("  \t ", ""),
            ("use", "usage: use <collection name>"),
            ("frobnicate x", "unknown command: 'frobnicate' (type 'help' for a list)"),
            ("use people", "using collection 'people'"),
            ("insert {oops}", "parse error: expected '\"', found 'o'"),
            ("insert", "parse error: unexpected end of input"),
            ("insert [1]", "parse error: expected a JSON object, e.g. {\"field\": value}"),
            ("find {", "parse error: expected '\"', found end of input"),
            ("find", "(no matches)"),
            ("find {\"a\": 1}", "(no matches)"),
            ("get", "usage: get <id>"),
            ("get 1", "(not found)"),
            ("update", "usage: update <id> <json>"),
            ("update 1", "usage: update <id> <json>"),
            ("update 1 x", "parse error: unexpected character 'x'"),
            ("update 1 {}", "(not found)"),
            ("delete", "usage: delete <id>"),
            ("delete 1", "(not found)"),
        ],
    );
    let long = format!("insert {{\"_id\": \"{}\"}}", "x".repeat(5000));
    assert_eq!(answer(&mut shell, &long), "error: index entry too large for a page");
    assert_eq!(
        open_failure("people", &StorageError::CorruptPage.message()),
        "error opening collection 'people': corrupt page"
    );
}

#[test]
fn help_lists_the_commands() {
    let text = answer(&mut Shell::new(), "help");
    assert!(text.starts_with("Commands:\n  use <name>  "));
    assert!(text.contains("insert {\"name\": \"Alice\", \"age\": 30}"));
    assert!(text.contains("e.g. find {\"age\": {\"$gt\": 25}}"));
    assert!(text.ends_with("  exit | quit            leave the shell"));
    assert_eq!(text.lines().count(), 10);
}

#[test]
fn actions_are_handed_over_once() {
    let mut shell = Shell::new();
    answer(&mut shell, "use a");
    answer(&mut shell, "use b");
    answer(&mut shell, "insert {}");
    shell.flush();
    let pending = shell.take_actions();
    assert_eq!(pending.len(), 2);
    assert_eq!(pending[0].name, "a");
    assert_eq!(pending[1].name, "b");
    for one in &pending {
        let last = one.actions.len() - 1;
        assert!(matches!(one.actions[last - 1], FileAction::Heap(Action::SyncFile)));
        assert!(matches!(one.actions[last], FileAction::Index(Action::SyncFile)));
    }
    assert!(pending[1].actions.len() > pending[0].actions.len());
    for one in shell.take_actions() {
        assert!(one.actions.is_empty());
    }
    assert_eq!(answer(&mut shell, "find"), r#"{"_id": "0000000000000000"}"#);
}

#[test]
fn a_generated_id_does_not_replace_a_given_one() {
    let mut shell = Shell::new();
    answer(&mut shell, "use a");
    let given = r#"insert {"_id": "0000000000000000", "name": "A"}"#;
    assert_eq!(answer(&mut shell, given), "inserted _id = 0000000000000000");
    let without = r#"insert {"name": "B"}"#;
    assert_eq!(answer(&mut shell, without), "inserted _id = 0000000000000001");
    assert_eq!(
        answer(&mut shell, "find"),
        "{\"_id\": \"0000000000000000\", \"name\": \"A\"}\n{\"name\": \"B\", \"_id\": \"0000000000000001\"}"
    );
}

#[test]
fn failing_lines_are_answered_and_change_nothing() {
    let mut shell = Shell::new();
    let unselected = "no collection selected — try 'use <name>' first";
    assert_eq!(answer(&mut shell, "insert {}"), unselected);
    assert_eq!(answer(&mut shell, "use"), "usage: use <collection name>");
    answer(&mut shell, "use a");
    answer(&mut shell, r#"insert {"_id": "x", "n": 1}"#);
    answer(&mut shell, r#"insert {"_id": "y", "n": 2}"#);
    let stored = answer(&mut shell, "find");

    let long_id = format!(r#"insert {{"_id": "{}"}}"#, "x".repeat(5000));
    let lines = [
        ("frobnicate", "unknown command: 'frobnicate' (type 'help' for a list)"),
        ("use   ", "usage: use <collection name>"),
        ("get", "usage: get <id>"),
        ("get z", "(not found)"),
        ("update x", "usage: update <id> <json>"),
        ("update z {}", "(not found)"),
        ("delete", "usage: delete <id>"),
        ("delete z", "(not found)"),
        (long_id.as_str(), "error: index entry too large for a page"),
    ];
    for (line, expected) in lines {
        assert_eq!(answer(&mut shell, line), expected);
        shell.take_actions();
        assert_eq!(answer(&mut shell, "find"), stored);
    }
    for line in ["insert", "insert {", "insert [1]", "find {", "update x {\"n\"}"] {
        assert!(answer(&mut shell, line).starts_with("parse error: "));
        assert_eq!(answer(&mut shell, "find"), stored);
    }
    // The next line is carried out.
    assert_eq!(answer(&mut shell, "delete x"), "deleted");
}

#[test]
fn leaving_brings_all_collections_to_storage() {
    let mut shell = Shell::new();
    for name in ["a", "b"] {
        answer(&mut shell, &format!("use {name}"));
        answer(&mut shell, "insert {}");
    }
    shell.take_actions();
    assert_eq!(shell.leave(), "bye!");
    let pending = shell.take_actions();
    assert_eq!(pending.len(), 2);
    for one in pending {
        assert_eq!(one.actions.len(), 2);
        assert!(matches!(one.actions[0], FileAction::Heap(Action::SyncFile)));
        assert!(matches!(one.actions[1], FileAction::Index(Action::SyncFile)));
    }
}
