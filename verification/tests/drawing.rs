use todotree::todo::Todo;
use todotree::tree::Tree;
use todotree::Status;

fn node(name: &str, owner: &str, comment: &[&str], children: Vec<Todo>) -> Todo {
    Todo {
        name: name.as_bytes().to_vec(),
        owner: owner.as_bytes().to_vec(),
        comment: comment.iter().map(|c| c.as_bytes().to_vec()).collect(),
        dependencies: Vec::new(),
        auxilaries: vec![Vec::new()],
        children,
        height: 0,
        status: Status::Pending,
    }
}

fn s(out: Vec<u8>) -> String {
    String::from_utf8(out).unwrap()
}

#[test]
fn connector_draws_one_branch_per_level() {
    let t = node("x", "", &[], Vec::new());
    let draw = |flags: &[bool], reverse: bool| {
        let mut out = b">".to_vec();
        t.fmt_connector(&mut out, &flags.to_vec(), b" ", b"|", reverse);
        s(out)
    };
    assert_eq!(draw(&[], false), ">|");
    assert_eq!(draw(&[true], false), ">|└── ");
    assert_eq!(draw(&[false], false), ">|├── ");
    assert_eq!(draw(&[true, false, true], false), ">|    │   └── ");
    assert_eq!(draw(&[false, true, false], true), ">|│       ├── ");
    assert_eq!(draw(&[false, true], true), ">|│   ┌── ");
    let mut out = Vec::new();
    t.fmt_connector(&mut out, &vec![true, true], b"&nbsp;", b"<p>", false);
    assert_eq!(s(out), "<p>&nbsp;&nbsp;&nbsp;&nbsp;└──&nbsp;");
}

#[test]
fn rule_and_continuation_follow_the_connectors() {
    let leaf = node("x", "", &[], Vec::new());
    let parent = node("x", "", &[], vec![node("y", "", &[], Vec::new())]);
    let draw = |t: &Todo, flags: &[bool], m: [usize; 3], iscomment: bool, reverse: bool| {
        let mut out = Vec::new();
        t.fmt_cont_comment_or_dash(&mut out, &flags.to_vec(), &m, b" ", b"", iscomment, reverse);
        s(out)
    };
    assert_eq!(draw(&leaf, &[true], [6, 2, 3], false, false), "       └────┴─────┘");
    assert_eq!(draw(&leaf, &[false], [6, 2, 3], false, false), "│      ├────┼─────┤");
    assert_eq!(draw(&parent, &[true], [6, 2, 3], false, false), "    │  ├────┼─────┤");
    assert_eq!(draw(&leaf, &[true], [6, 0, 3], false, false), "       └─────┘");
    assert_eq!(draw(&leaf, &[true], [6, 2, 0], false, false), "       └────┘");
    assert_eq!(draw(&leaf, &[true], [6, 2, 3], false, true), "       ┌────┬─────┐");
    assert_eq!(draw(&leaf, &[false], [6, 2, 3], false, true), "│      ├────┼─────┤");
    assert_eq!(draw(&parent, &[true], [6, 2, 3], true, false), "    │  │    │ ");
    assert_eq!(draw(&leaf, &[false, true], [9, 2, 3], true, false), "│         │    │ ");
    assert_eq!(draw(&parent, &[false, true], [9, 2, 3], true, true), "│   │     │    │ ");
    assert_eq!(draw(&leaf, &[true], [4, 0, 3], true, false), "      │ ");
    assert_eq!(draw(&leaf, &[], [1, 1, 1], false, false), "  └───┴───┘");
}

#[test]
fn table_cells_are_filled_to_their_widths() {
    let t = node("ab", "me", &["hi"], Vec::new());
    let draw = |t: &Todo, m: [usize; 3], reverse: bool| {
        let mut out = Vec::new();
        t.fmt_table(&mut out, &vec![true], &m, b" ", b"", b"\n", reverse);
        s(out)
    };
    assert_eq!(draw(&t, [8, 0, 0], false), "\n");
    assert_eq!(draw(&t, [2, 0, 0], false), "\n");
    assert_eq!(draw(&t, [0, 0, 0], true), "\n");
    assert_eq!(draw(&t, [8, 4, 0], false), "   │ me   │\n         └──────┘\n");
    assert_eq!(draw(&t, [8, 4, 3], false), "   │ me   │ hi  │\n         └──────┴─────┘\n");
    assert_eq!(draw(&t, [8, 0, 3], false), "   │ hi  │\n         └─────┘\n");
    assert_eq!(draw(&t, [8, 4, 3], true), "   │ me   │ hi  │\n");
    assert_eq!(draw(&t, [8, 4, 0], true), "   │ me   │\n");
    let bare = node("ab", "", &[], Vec::new());
    assert_eq!(draw(&bare, [6, 2, 2], false), " │    │    │\n       └────┴────┘\n");
}

#[test]
fn comments_are_numbered_and_wrapped() {
    let draw = |comment: &[&str], width: usize| {
        let t = node("ab", "", comment, Vec::new());
        let mut out = Vec::new();
        t.fmt_comment(&mut out, &Vec::new(), &[2, 0, width], b" ", b"", b"\n", true);
        s(out)
    };
    assert_eq!(draw(&[], 3), "    │\n");
    assert_eq!(draw(&["abc"], 3), "abc │\n");
    assert_eq!(draw(&["abcdefg"], 3), "abc │\n   │ def │\n   │ g   │\n");
    assert_eq!(draw(&["ab", "c"], 5), "1. ab │\n   │ 2. c  │\n");
    assert_eq!(draw(&["abc", ""], 4), "1. a │\n   │    b │\n   │    c │\n   │ 2.   │\n");
    assert_eq!(draw(&["ab", "c"], 2), "1. a │\n   │    b │\n   │ 2. c │\n");
    let ten: Vec<&str> = vec!["x"; 10];
    let text = draw(&ten, 6);
    assert!(text.starts_with("01. x  │\n   │ 02. x  │\n"));
    assert!(text.ends_with("   │ 10. x  │\n"));
}

fn table(md: &str, format: &str, reverse: bool) -> String {
    let tree = Tree::new(
        &vec![md.as_bytes().to_vec()],
        &Vec::new(),
        &Vec::new(),
        40,
        format.as_bytes(),
        false,
        0,
        b"\n",
        true,
        false,
        false,
        false,
        reverse,
    )
    .unwrap();
    s(tree.render())
}

#[test]
fn bare_tree_has_no_table() {
    let md = "# A\n- : B C\n# B\n- : C\n# ~C\n";
    assert_eq!(table(md, "term", true), "        ┌── C\n    ┌── B\n┌── A\n/\n");
    let two = "# a\n- : b c\n# b\n# c\n- : d\n# d\n# e\n";
    assert_eq!(table(two, "term", false), "/\n├── a\n│   ├── b\n│   └── c\n│       └── d\n└── e\n");
    assert_eq!(table(two, "term", true), "┌── e\n│       ┌── d\n│   ┌── c\n│   ├── b\n├── a\n/\n");
}

#[test]
fn json_shows_owner_and_first_comment() {
    let md = "# a\n- @ me\n- % one\n- % two\n- : b\n# b\n";
    let expected = "\
{
  \"name\": \"/\",
  \"status\": \"Pending\",
  \"owner\": \"OWNER\",
  \"comment\": \"COMMENT\",
  \"dependencies\": [
    {
      \"name\": \"a\",
      \"status\": \"Pending\",
      \"owner\": \"me\",
      \"comment\": \"one\",
      \"dependencies\": [
        {
          \"name\": \"b\",
          \"status\": \"Actionable\",
          \"owner\": \"\",
          \"dependencies\": [
          ]
        }
      ]
    }
  ]
}
";
    assert_eq!(table(md, "json", false), expected);
    let two = "# a\n# b\n";
    let text = table(two, "json", false);
    assert!(text.contains("    }\n    ,\n    {\n"));
}

#[test]
fn html_wraps_comments_too() {
    let text = table("# a\n- % 0123456789012345678901234567890123\n", "html", false);
    let rows: Vec<&str> = text.lines().collect();
    assert_eq!(rows.len(), 5);
    assert!(rows.iter().all(|r| r.starts_with("<p style='font-family: monospace;") && r.ends_with("</p>")));
    assert!(rows[2].ends_with("'>└──&nbsp;a&nbsp;│&nbsp;012345678901234567890123456&nbsp;│</p>"));
    assert!(rows[3].contains("&nbsp;│&nbsp;7890123&nbsp;"));
    assert!(rows[4].ends_with("&nbsp;└─────────────────────────────┘</p>"));
}

#[test]
fn widths_are_counted_in_bytes() {
    let t = node("é", "ü", &["åäö"], Vec::new());
    let mut root = node("/", "", &[], vec![t]);
    let mut maxlens = [0usize; 3];
    root.get_maxlens(&mut maxlens, 0, 80).unwrap();
    assert_eq!(maxlens, [6, 5, 7]);
    let mut out = Vec::new();
    root.fmt_tree(&mut out, &mut Vec::new(), &maxlens, &todotree::Format::Term, true, false);
    let text = s(out);
    let expected = "\
/      │ OWNER │ COMMENT │
│      ├───────┼─────────┤
└── é │ ü    │ åäö  │
       └───────┴─────────┘
";
    assert_eq!(text, expected);
    let wide = node("x", "", &["åäö"], Vec::new());
    let mut out = Vec::new();
    wide.fmt_comment(&mut out, &Vec::new(), &[1, 0, 3], b" ", b"", b"\n", true);
    let a = "å".as_bytes();
    let mut want = Vec::new();
    want.extend_from_slice(a);
    want.extend_from_slice(&"ä".as_bytes()[..1]);
    want.extend_from_slice(" │\n".as_bytes());
    want.extend_from_slice("  │ ".as_bytes());
    want.extend_from_slice(&"ä".as_bytes()[1..]);
    want.extend_from_slice("ö".as_bytes());
    want.extend_from_slice(" │\n".as_bytes());
    assert_eq!(out, want);
}
