use todotree::todo::Todo;
use todotree::{Format, Status};

fn leaf(name: &str, owner: &str, comment: &[&str], status: Status) -> Todo {
    Todo {
        name: name.as_bytes().to_vec(),
        owner: owner.as_bytes().to_vec(),
        comment: comment.iter().map(|c| c.as_bytes().to_vec()).collect(),
        dependencies: Vec::new(),
        auxilaries: vec![Vec::new()],
        children: Vec::new(),
        height: 0,
        status,
    }
}

fn sample() -> Todo {
    let mut root = leaf("/", "OWNER", &["COMMENT"], Status::Pending);
    let mut a = leaf("A", "bob", &["first", "second line"], Status::Pending);
    let b = leaf("B", "", &[], Status::Actionable);
    let c = leaf("C", "al", &["done"], Status::Completed);
    a.children.push(b);
    root.children.push(a);
    root.children.push(c);
    root
}

fn render(t: &Todo, maxlens: [usize; 3], format: Format, no_color: bool, reverse: bool) -> String {
    let mut out = Vec::new();
    let mut connectors = Vec::new();
    t.fmt_tree(&mut out, &mut connectors, &maxlens, &format, no_color, reverse);
    assert!(connectors.is_empty());
    String::from_utf8(out).unwrap()
}

#[test]
fn term_table_plain() {
    let text = render(&sample(), [9, 5, 9], Format::Term, true, false);
    println!("{}", text);
    let expected = "\
/         │ OWNER │ COMMENT   │
│         ├───────┼───────────┤
├── A     │ bob   │ 1. first  │
│   │     │       │ 2. second │
│   │     │       │     line  │
│   │     ├───────┼───────────┤
│   └── B │       │           │
│         ├───────┼───────────┤
└── C     │ al    │ done      │
          └───────┴───────────┘
";
    assert_eq!(text, expected);
}
