use board_config::{line_index, parse, parse_grammar, Expected, Field, FolderMode, Node, ParseError};

const EXAMPLE: &str = r#"
        name = "Example System"
        description = "This is an example system."
        default = "Example Folder"

        rows = 2
        cols = 3

        folder "Example Folder" (append)
                "0"     "1"     "2"
                "3"     "4"     "5"
        ;
    "#;

const HEADER: &str = r#"
name = "Board"
description = "A board."
default = "Main"
rows = 1
cols = 2
"#;

fn with_header(rest: &str) -> String {
    let mut t = HEADER.to_string();
    t.push_str(rest);
    t
}

#[test]
fn test_parser() {
    let system = parse(EXAMPLE).unwrap();

    assert_eq!("Example System", system.name);
    assert_eq!("This is an example system.", system.description);
    assert_eq!("Example Folder", system.default);

    assert_eq!(2, system.rows);
    assert_eq!(3, system.cols);

    let folder = system.folder("Example Folder").unwrap();
    assert_eq!(FolderMode::Append, folder.mode);
    assert_eq!(6, folder.buttons.len());
    assert_eq!("0", folder.buttons[0]);
    assert_eq!("1", folder.buttons[1]);
    assert_eq!("2", folder.buttons[2]);
    assert_eq!("3", folder.buttons[3]);
    assert_eq!("4", folder.buttons[4]);
    assert_eq!("5", folder.buttons[5]);
}

#[test]
fn example_parses_to_exact_system() {
    let system = parse(EXAMPLE).unwrap();
    assert_eq!(system.folders.len(), 1);
    assert_eq!(system.folders[0].0, "Example Folder");
    let folder = &system.folders[0].1;
    assert_eq!(folder.mode, FolderMode::Append);
    assert_eq!(folder.buttons, vec!["0", "1", "2", "3", "4", "5"]);
}

#[test]
fn only_assignments_give_no_folders() {
    let system = parse(HEADER).unwrap();
    assert!(system.folders.is_empty());
    assert!(system.folder("Main").is_none());
}

#[test]
fn buttons_keep_source_order() {
    let text = with_header("folder \"Main\" (speak) \"zeta\" \"alpha\" \"mid\" \"alpha\";");
    let system = parse(&text).unwrap();
    let folder = system.folder("Main").unwrap();
    assert_eq!(folder.mode, FolderMode::Speak);
    assert_eq!(folder.buttons, vec!["zeta", "alpha", "mid", "alpha"]);
}

#[test]
fn parsing_twice_gives_equal_values() {
    let a = parse(EXAMPLE).unwrap();
    let b = parse(EXAMPLE).unwrap();
    assert_eq!(a.name, b.name);
    assert_eq!(a.description, b.description);
    assert_eq!(a.default, b.default);
    assert_eq!(a.rows, b.rows);
    assert_eq!(a.cols, b.cols);
    assert_eq!(a.folders.len(), b.folders.len());
    for ((ka, fa), (kb, fb)) in a.folders.iter().zip(b.folders.iter()) {
        assert_eq!(ka, kb);
        assert_eq!(fa.mode, fb.mode);
        assert_eq!(fa.buttons, fb.buttons);
    }
}

#[test]
fn duplicate_key_last_write_wins() {
    let text = r#"
name = "A"
description = "d"
default = "f"
rows = 1
cols = 1
name = "B"
"#;
    let system = parse(text).unwrap();
    assert_eq!(system.name, "B");
}

#[test]
fn missing_name_is_reported() {
    let text = r#"
description = "d"
default = "f"
rows = 1
cols = 1
"#;
    let e = parse(text).unwrap_err();
    assert!(matches!(e, ParseError::MissingField { field_name: Field::Name }));
}

#[test]
fn missing_other_fields_are_reported() {
    let e = parse("name = \"n\" default = \"f\" rows = 1 cols = 1").unwrap_err();
    assert!(matches!(e, ParseError::MissingField { field_name: Field::Description }));
    let e = parse("name = \"n\" description = \"d\" rows = 1 cols = 1").unwrap_err();
    assert!(matches!(e, ParseError::MissingField { field_name: Field::Default }));
    let e = parse("name = \"n\" description = \"d\" default = \"f\" cols = 1").unwrap_err();
    assert!(matches!(e, ParseError::MissingField { field_name: Field::Rows }));
    let e = parse("name = \"n\" description = \"d\" default = \"f\" rows = 1").unwrap_err();
    assert!(matches!(e, ParseError::MissingField { field_name: Field::Cols }));
}

#[test]
fn invalid_mode_is_reported() {
    let text = with_header("folder \"X\" (shout) \"a\";");
    match parse(&text).unwrap_err() {
        ParseError::InvalidMode { folder_name, found } => {
            assert_eq!(folder_name, "X");
            assert_eq!(found, "shout");
        }
        other => panic!("unexpected error {:?}", other),
    }
}

#[test]
fn invalid_mode_comes_before_missing_fields() {
    match parse("folder \"X\" (shout) \"a\";").unwrap_err() {
        ParseError::InvalidMode { folder_name, .. } => assert_eq!(folder_name, "X"),
        other => panic!("unexpected error {:?}", other),
    }
}

#[test]
fn invalid_numbers_are_reported() {
    let e = parse("name = \"n\" description = \"d\" default = \"f\" rows = 256 cols = 1").unwrap_err();
    match e {
        ParseError::InvalidNumber { field_name, found } => {
            assert_eq!(field_name, Field::Rows);
            assert_eq!(found, "256");
        }
        other => panic!("unexpected error {:?}", other),
    }
    let e = parse("name = \"n\" description = \"d\" default = \"f\" rows = 1 cols = \"x1\"").unwrap_err();
    match e {
        ParseError::InvalidNumber { field_name, found } => {
            assert_eq!(field_name, Field::Cols);
            assert_eq!(found, "x1");
        }
        other => panic!("unexpected error {:?}", other),
    }
    let e = parse("name = \"n\" description = \"d\" default = \"f\" rows = \"\" cols = 1").unwrap_err();
    assert!(matches!(e, ParseError::InvalidNumber { field_name: Field::Rows, .. }));
}

#[test]
fn numbers_may_be_quoted_and_reach_255() {
    let system = parse("name = \"n\" description = \"d\" default = \"f\" rows = \"255\" cols = 007").unwrap();
    assert_eq!(system.rows, 255);
    assert_eq!(system.cols, 7);
}

#[test]
fn later_folder_replaces_earlier_one() {
    let text = with_header(
        "folder \"Main\" (append) \"a\";\nfolder \"Other\" (speak) \"o\";\nfolder \"Main\" (speak) \"b\" \"c\";",
    );
    let system = parse(&text).unwrap();
    assert_eq!(system.folders.len(), 2);
    let main = system.folder("Main").unwrap();
    assert_eq!(main.mode, FolderMode::Speak);
    assert_eq!(main.buttons, vec!["b", "c"]);
    assert_eq!(system.folder("Other").unwrap().buttons, vec!["o"]);
}

#[test]
fn strings_keep_case_and_spaces() {
    let system = parse("name = \" Mixed Case \" description = \"\" default = \"F\" rows = 0 cols = 0").unwrap();
    assert_eq!(system.name, " Mixed Case ");
    assert_eq!(system.description, "");
    assert_eq!(system.rows, 0);
}

#[test]
fn comments_and_unicode_are_handled() {
    let text = "// board\nname = \"Ünï\" // trailing\ndescription = \"d\"\ndefault = \"f\"\nrows = 1\ncols = 1\nfolder \"é\" (append) \"ß\" ;";
    let system = parse(text).unwrap();
    assert_eq!(system.name, "Ünï");
    assert_eq!(system.folder("é").unwrap().buttons, vec!["ß"]);
}

fn syntax_error(text: &str) -> (usize, Expected) {
    match parse(text).unwrap_err() {
        ParseError::Syntax { position, expected } => (position, expected),
        other => panic!("unexpected error {:?}", other),
    }
}

#[test]
fn syntax_errors_name_position_and_expectation() {
    assert_eq!(syntax_error("= \"x\""), (0, Expected::Item));
    assert_eq!(syntax_error("name \"x\""), (5, Expected::Equals));
    assert_eq!(syntax_error("name = x"), (7, Expected::Value));
    assert_eq!(syntax_error("name = \"x"), (7, Expected::ClosingQuote));
    assert_eq!(syntax_error("folder X"), (7, Expected::QuotedString));
    assert_eq!(syntax_error("folder \"X\" append"), (11, Expected::OpenParen));
    assert_eq!(syntax_error("folder \"X\" (\"a\")"), (12, Expected::Mode));
    assert_eq!(syntax_error("folder \"X\" (append \"a\";"), (19, Expected::CloseParen));
    assert_eq!(syntax_error("folder \"X\" (append) ;"), (20, Expected::QuotedString));
    assert_eq!(syntax_error("folder \"X\" (append) \"a\""), (23, Expected::ButtonOrSemicolon));
}

#[test]
fn grammar_gives_nodes_in_source_order() {
    let nodes = parse_grammar("a = \"b\" folder \"F\" (speak) \"x\" \"y\"; c = 12").unwrap();
    assert_eq!(nodes.len(), 3);
    match &nodes[0] {
        Node::Assignment { key, value } => {
            assert_eq!((key.start, key.end), (0, 1));
            assert_eq!((value.start, value.end), (5, 6));
        }
        other => panic!("unexpected node {:?}", other),
    }
    match &nodes[1] {
        Node::Folder { name, mode, buttons } => {
            assert_eq!((name.start, name.end), (16, 17));
            assert_eq!((mode.start, mode.end), (20, 25));
            assert_eq!(buttons.len(), 2);
            assert_eq!((buttons[0].start, buttons[0].end), (28, 29));
            assert_eq!((buttons[1].start, buttons[1].end), (32, 33));
        }
        other => panic!("unexpected node {:?}", other),
    }
    match &nodes[2] {
        Node::Assignment { value, .. } => assert_eq!((value.start, value.end), (40, 42)),
        other => panic!("unexpected node {:?}", other),
    }
}

#[test]
fn empty_text_has_no_nodes_and_misses_name() {
    assert!(parse_grammar("  \n// only a comment").unwrap().is_empty());
    assert!(matches!(parse("").unwrap_err(), ParseError::MissingField { field_name: Field::Name }));
}

#[test]
fn expectations_read_as_text() {
    assert_eq!(Expected::Equals.message(), "`=` after identifier");
    assert_eq!(Expected::ButtonOrSemicolon.message(), "a quoted button label or `;`");
    assert_eq!(Expected::ClosingQuote.message(), "a closing `\"`");
}

#[test]
fn line_index_counts_line_feeds_before_position() {
    let text = "name = \"a\"\nrows = \n  x";
    assert_eq!(line_index(text, 0), 0);
    assert_eq!(line_index(text, 10), 0);
    assert_eq!(line_index(text, 11), 1);
    let (position, expected) = syntax_error(text);
    assert_eq!(expected, Expected::Value);
    assert_eq!(line_index(text, position), 2);
}
