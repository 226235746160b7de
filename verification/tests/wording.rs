use todotree::{ErrorKind, Format, Status, TodoError};

fn say(e: TodoError) -> String {
    String::from_utf8(e.message()).unwrap()
}

#[test]
fn every_error_says_what_was_found() {
    let n = |s: &str| s.as_bytes().to_vec();
    assert_eq!(
        say(TodoError::UnsupportedCharacter { name: n("a b"), byte: b' ' }),
        "ERR-001: Todo name 'a b' contains unsupported character ' ', which is not alphabet, digit, or one of ! @ $ % & ( ) - _ = + : ' \" . ?"
    );
    assert_eq!(say(TodoError::DependencyLoop { name: n("a") }), "ERR-002: Todo 'a' has a dependency loop");
    assert_eq!(say(TodoError::MissingTodo { name: n("a") }), "ERR-003: Todo 'a' is missing in the markdown file");
    assert_eq!(
        say(TodoError::UnfinishedDependencies { name: n("a"), pending: vec![n("b"), n("c")] }),
        "ERR-004: Todo 'a' cannot be completed because its dependencies [b, c] are not completed yet"
    );
    assert_eq!(
        say(TodoError::TooNarrow { width: 9, needed: 120 }),
        "ERR-005: Screen width is 9, but this todotree needs at least 120 columns"
    );
    assert_eq!(say(TodoError::UnknownFormat), "ERR-006: Wrong parameter for -f");
    assert_eq!(
        say(TodoError::NoRoot),
        "ERR-007: Failed to find root node, as all todos are in dependency loops"
    );
    assert_eq!(
        say(TodoError::ReservedName),
        "ERR-009: '/' is a reserved Todo name keyword, and a name must not be empty"
    );
    assert_eq!(say(TodoError::NoTodo), "ERR-010: The markdown file does not have any Todo");
    assert_eq!(
        say(TodoError::MarkedDefinition { name: n("b"), parent: n("a") }),
        "ERR-011: Todo 'b' has its own '# ' line, then it should not have '~' in the dependencies list of 'a'"
    );
    assert_eq!(
        say(TodoError::ConflictingMarkers { name: n("x"), first: n("a"), second: n("b") }),
        "ERR-012: Todo 'b' and todo 'a' disagree on '~' in front of their dependency 'x'"
    );
    assert_eq!(
        say(TodoError::MissingHeader),
        "ERR-013: Missing '# [TODO]' before '- @', '- :', or '- %' in the todotree markdown file"
    );
    assert_eq!(say(TodoError::DuplicateName { name: n("a") }), "ERR-014: Duplicated todo name 'a'");
    assert_eq!(say(TodoError::SelfDependency { name: n("a") }), "ERR-016: Todo 'a' should not depend on itself");
    assert_eq!(say(TodoError::TrailingSlash { name: n("a/") }), "ERR-018: Todo name 'a/' should not end with '/'");
    assert_eq!(say(TodoError::UnknownOwner { owner: n("me") }), "ERR-022: no such owner 'me' in the markdown file");
    assert_eq!(say(TodoError::ReverseUnsupported), "ERR-024: --reverse works with Term or Html only");
}

#[test]
fn every_error_has_its_number_and_family() {
    let n = |s: &str| s.as_bytes().to_vec();
    let all = vec![
        (TodoError::UnsupportedCharacter { name: n("a"), byte: 0 }, 1, ErrorKind::Syntax),
        (TodoError::DependencyLoop { name: n("a") }, 2, ErrorKind::Structure),
        (TodoError::MissingTodo { name: n("a") }, 3, ErrorKind::Structure),
        (TodoError::UnfinishedDependencies { name: n("a"), pending: Vec::new() }, 4, ErrorKind::Consistency),
        (TodoError::TooNarrow { width: 0, needed: 0 }, 5, ErrorKind::Layout),
        (TodoError::UnknownFormat, 6, ErrorKind::Configuration),
        (TodoError::NoRoot, 7, ErrorKind::Structure),
        (TodoError::ReservedName, 9, ErrorKind::Syntax),
        (TodoError::NoTodo, 10, ErrorKind::Structure),
        (TodoError::MarkedDefinition { name: n("a"), parent: n("b") }, 11, ErrorKind::Consistency),
        (TodoError::ConflictingMarkers { name: n("a"), first: n("b"), second: n("c") }, 12, ErrorKind::Consistency),
        (TodoError::MissingHeader, 13, ErrorKind::Syntax),
        (TodoError::DuplicateName { name: n("a") }, 14, ErrorKind::Structure),
        (TodoError::SelfDependency { name: n("a") }, 16, ErrorKind::Syntax),
        (TodoError::TrailingSlash { name: n("a") }, 18, ErrorKind::Syntax),
        (TodoError::UnknownOwner { owner: n("a") }, 22, ErrorKind::Configuration),
        (TodoError::ReverseUnsupported, 24, ErrorKind::Configuration),
    ];
    for (e, code, kind) in all {
        assert_eq!(e.code(), code);
        assert_eq!(e.kind(), kind);
        assert!(say(e).starts_with(&format!("ERR-{:03}: ", code)));
    }
}

#[test]
fn formats_and_statuses_have_names() {
    assert_eq!(Format::from_name(b"html").unwrap(), Format::Html);
    assert_eq!(Format::from_name(b"json").unwrap(), Format::Json);
    assert_eq!(Format::from_name(b"term").unwrap(), Format::Term);
    assert_eq!(Format::from_name(b"md").unwrap(), Format::Md);
    assert_eq!(Format::from_name(b"").unwrap(), Format::Term);
    assert_eq!(Format::from_name(b"Term").err().unwrap().code(), 6);
    assert!(Format::Term.is_table() && Format::Html.is_table());
    assert!(!Format::Json.is_table() && !Format::Md.is_table());
    assert_eq!(Status::Completed.label(), b"Completed".to_vec());
    assert_eq!(Status::Pending.label(), b"Pending".to_vec());
    assert_eq!(Status::Actionable.label(), b"Actionable".to_vec());
}
