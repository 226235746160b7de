use todotree::tree::Tree;
use todotree::TodoError;

fn table(md: &str, format: &str, width: usize, no_color: bool, reverse: bool) -> Result<String, TodoError> {
    let tree = Tree::new(
        &vec![md.as_bytes().to_vec()],
        &Vec::new(),
        &Vec::new(),
        width,
        format.as_bytes(),
        false,
        0,
        b"\n",
        no_color,
        false,
        false,
        false,
        reverse,
    )?;
    Ok(String::from_utf8(tree.render()).unwrap())
}

const HOUSE: &str = "\
# house
- @ Dad
- % paint the walls
- % buy a sofa
- : paint sofa
# paint
- @ Avery
- % white
# ~sofa
";

#[test]
fn terminal_table_with_owners_and_comments() {
    let text = table(HOUSE, "term", 80, true, false).unwrap();
    let expected = "\
/             │ OWNER │ COMMENT         │
│             ├───────┼─────────────────┤
└── house     │ Dad   │ 1. paint the wa │
    │         │       │    lls          │
    │         │       │ 2. buy a sofa   │
    │         ├───────┼─────────────────┤
    ├── paint │ Avery │ white           │
    │         ├───────┼─────────────────┤
    └── sofa  │       │                 │
              └───────┴─────────────────┘
";
    assert_eq!(text, expected);
}

#[test]
fn terminal_table_in_colour() {
    let text = table(HOUSE, "term", 80, false, false).unwrap();
    let expected = "\
/             │ OWNER │ COMMENT         │
│             ├───────┼─────────────────┤
└── house     │ Dad   │ 1. paint the wa │
    │         │       │    lls          │
    │         │       │ 2. buy a sofa   │
    │         ├───────┼─────────────────┤
    ├── \x1b[31mpaint\x1b(B\x1b[m │ Avery │ white           │
    │         ├───────┼─────────────────┤
    └── \x1b[34msofa\x1b(B\x1b[m  │       │                 │
              └───────┴─────────────────┘
";
    assert_eq!(text, expected);
}

#[test]
fn narrow_screen_wraps_comments() {
    let text = table(HOUSE, "term", 35, true, false).unwrap();
    let expected = "\
/             │ OWNER │ COMMENT   │
│             ├───────┼───────────┤
└── house     │ Dad   │ 1. paint  │
    │         │       │    the wa │
    │         │       │    lls    │
    │         │       │ 2. buy a  │
    │         │       │    sofa   │
    │         ├───────┼───────────┤
    ├── paint │ Avery │ white     │
    │         ├───────┼───────────┤
    └── sofa  │       │           │
              └───────┴───────────┘
";
    assert_eq!(text, expected);
}

#[test]
fn too_narrow_screen_is_refused() {
    let e = table(HOUSE, "term", 26, true, false).err().unwrap();
    assert_eq!(e.code(), 5);
    match &e {
        TodoError::TooNarrow { width, needed } => {
            assert_eq!(*width, 26);
            assert_eq!(*needed, 13 + 5 + 8);
        }
        other => panic!("{:?}", other),
    }
    assert_eq!(
        String::from_utf8(e.message()).unwrap(),
        "ERR-005: Screen width is 26, but this todotree needs at least 26 columns"
    );
    assert!(table(HOUSE, "term", 27, true, false).is_ok());
}

#[test]
fn reversed_table_mirrors_the_tree() {
    let text = table(HOUSE, "term", 80, true, true).unwrap();
    let expected = "              ┌───────┬─────────────────┐
    ┌── sofa  │       │                 │
    │         ├───────┼─────────────────┤
    ├── paint │ Avery │ white           │
    │         ├───────┼─────────────────┤
┌── house     │ Dad   │ 1. paint the wa │
│             │       │    lls          │
│             │       │ 2. buy a sofa   │
│             ├───────┼─────────────────┤
/             │ OWNER │ COMMENT         │
";
    assert_eq!(text, expected);
}

#[test]
fn html_table() {
    let text = table("# A\n- @ me\n# ~B\n", "html", 80, false, false).unwrap();
    let p = "<p style='font-family: monospace; font-size: 16px; margin: 0px; line-height: 16px'>";
    let s = "&nbsp;";
    let expected = format!(
        "{p}/{s}{s}{s}{s}{s}│{s}OWNER{s}│</p>\n\
         {p}│{s}{s}{s}{s}{s}├───────┤</p>\n\
         {p}├──{s}<span style='color:red'>A</span>{s}│{s}me{s}{s}{s}{s}│</p>\n\
         {p}│{s}{s}{s}{s}{s}├───────┤</p>\n\
         {p}└──{s}<span style='color:blue'>B</span>{s}│{s}{s}{s}{s}{s}{s}{s}│</p>\n\
         {p}{s}{s}{s}{s}{s}{s}└───────┘</p>\n",
        p = p,
        s = s
    );
    assert_eq!(text, expected);
}

#[test]
fn reverse_is_for_tables_only() {
    for format in ["json", "md"] {
        let e = table(HOUSE, format, 80, true, true).err().unwrap();
        assert_eq!(e.code(), 24);
    }
    assert!(table(HOUSE, "html", 80, true, true).is_ok());
}

#[test]
fn unknown_format_is_refused() {
    let e = table(HOUSE, "pdf", 80, true, false).err().unwrap();
    assert_eq!(e.code(), 6);
    assert!(table(HOUSE, "", 80, true, false).is_ok());
}
