use todotree::todo::Todo;
use todotree::tree::Tree;
use todotree::{ErrorKind, Format, Status, TodoError};

fn plant(md: &str, format: &str, hide: bool, depth: i32) -> Result<Tree, TodoError> {
    Tree::new(
        &vec![md.as_bytes().to_vec()],
        &Vec::new(),
        &Vec::new(),
        80,
        format.as_bytes(),
        hide,
        depth,
        b"\n",
        true,
        false,
        false,
        false,
        false,
    )
}

fn text(tree: &Tree) -> String {
    String::from_utf8(tree.render()).unwrap()
}

fn names(t: &Todo) -> Vec<String> {
    t.children.iter().map(|c| String::from_utf8(c.name.clone()).unwrap()).collect()
}

const ABC: &str = "# A\n- : B C\n# B\n- : C\n# ~C\n";

#[test]
fn shared_dependency_is_shown_once_below_the_first_parent() {
    let tree = plant(ABC, "term", false, 0).unwrap();
    let root = tree.root();
    assert_eq!(names(root), vec!["A"]);
    let a = &root.children[0];
    assert_eq!(names(a), vec!["B"]);
    let b = &a.children[0];
    assert_eq!(names(b), vec!["C"]);
    let c = &b.children[0];
    assert!(c.children.is_empty());
    assert_eq!(c.status, Status::Completed);
    assert_eq!(b.status, Status::Actionable);
    assert_eq!(a.status, Status::Pending);
    assert_eq!(text(&tree), "/\n└── A\n    └── B\n        └── C\n");
}

#[test]
fn depth_limit_counts_steps_from_the_root() {
    let tree = plant(ABC, "term", false, 1).unwrap();
    assert_eq!(text(&tree), "/\n└── A/\n");
    let tree = plant(ABC, "term", false, 2).unwrap();
    assert_eq!(text(&tree), "/\n└── A\n    ├── B/\n    └── C\n");
    let tree = plant(ABC, "term", false, 3).unwrap();
    assert_eq!(text(&tree), "/\n└── A\n    └── B\n        └── C\n");
}

#[test]
fn negative_depth_limit_cuts_the_leaves() {
    let tree = plant(ABC, "term", false, -1).unwrap();
    assert_eq!(text(&tree), "/\n└── A\n    └── B/\n");
    let a = &tree.root().children[0];
    assert_eq!(a.status, Status::Pending);
    assert_eq!(a.children[0].status, Status::Actionable);
    let tree = plant(ABC, "term", false, -2).unwrap();
    assert_eq!(text(&tree), "/\n└── A/\n");
}

#[test]
fn hiding_completed_todos_keeps_their_effect_on_status() {
    let tree = plant(ABC, "term", true, 0).unwrap();
    assert_eq!(text(&tree), "/\n└── A\n    └── B\n");
    let b = &tree.root().children[0].children[0];
    assert_eq!(b.status, Status::Actionable);
}

#[test]
fn self_dependency_is_refused() {
    let e = plant("# A\n- : A\n", "term", false, 0).err().unwrap();
    assert_eq!(e.code(), 16);
    assert_eq!(e.kind(), ErrorKind::Syntax);
    match e {
        TodoError::SelfDependency { name } => assert_eq!(name, b"A".to_vec()),
        other => panic!("{:?}", other),
    }
}

#[test]
fn loop_is_refused_with_a_todo_on_it() {
    let e = plant("# top\n- : A\n# A\n- : B\n# B\n- : A\n", "term", false, 0).err().unwrap();
    assert_eq!(e.code(), 2);
    match e {
        TodoError::DependencyLoop { name } => assert_eq!(name, b"B".to_vec()),
        other => panic!("{:?}", other),
    }
}

#[test]
fn graph_without_a_top_is_refused() {
    let e = plant("# A\n- : B\n# B\n- : A\n", "term", false, 0).err().unwrap();
    assert_eq!(e.code(), 7);
    assert!(matches!(e, TodoError::NoRoot));
}

#[test]
fn json_of_the_example() {
    let tree = plant(ABC, "json", false, 0).unwrap();
    let expected = "\
{
  \"name\": \"/\",
  \"status\": \"Pending\",
  \"dependencies\": [
    {
      \"name\": \"A\",
      \"status\": \"Pending\",
      \"dependencies\": [
        {
          \"name\": \"B\",
          \"status\": \"Actionable\",
          \"dependencies\": [
            {
              \"name\": \"C\",
              \"status\": \"Completed\",
              \"dependencies\": [
              ]
            }
          ]
        }
      ]
    }
  ]
}
";
    assert_eq!(text(&tree), expected);
    assert_eq!(tree.format(), Format::Json);
}

#[test]
fn markdown_of_the_example() {
    let tree = plant(ABC, "md", false, 0).unwrap();
    assert_eq!(text(&tree), "# A\n- : B C\n\n# B\n- : C\n\n# ~C\n\n");
}

#[test]
fn long_chains_are_walked_and_drawn() {
    let n = 400;
    let mut md = String::new();
    for i in 0..n {
        md.push_str(&format!("# t{}\n", i));
        if i + 1 < n {
            md.push_str(&format!("- : t{}\n", i + 1));
        }
    }
    for format in ["md", "json", "term"] {
        let tree = Tree::new(
            &vec![md.as_bytes().to_vec()],
            &Vec::new(),
            &Vec::new(),
            5000,
            format.as_bytes(),
            false,
            0,
            b"\n",
            true,
            false,
            false,
            false,
            false,
        )
        .unwrap();
        let mut depth = 0;
        let mut t = tree.root();
        while let Some(c) = t.children.first() {
            depth += 1;
            t = c;
        }
        assert_eq!(depth, n);
        assert_eq!(tree.root().height, n);
        let out = text(&tree);
        assert!(out.contains(&format!("t{}", n - 1)));
    }
    for format in ["md", "json", "term"] {
        let e = plant(&md, format, false, 0).err().unwrap();
        assert_eq!(e.code(), 5);
    }
    let tree = plant(&md, "term", false, 3).unwrap();
    assert_eq!(text(&tree), "/\n└── t0\n    └── t1\n        └── t2/\n");
}

fn grow(md: &str, targets: &[&str], format: &str) -> Tree {
    Tree::new(
        &vec![md.as_bytes().to_vec()],
        &Vec::new(),
        &targets.iter().map(|t| t.as_bytes().to_vec()).collect(),
        80,
        format.as_bytes(),
        false,
        0,
        b"\n",
        true,
        true,
        false,
        false,
        false,
    )
    .unwrap()
}

fn outline(t: &Todo, out: &mut Vec<String>) {
    for c in &t.children {
        let deps: Vec<String> = c
            .dependencies
            .iter()
            .map(|d| String::from_utf8(todotree::todo::bare(d)).unwrap())
            .collect();
        out.push(format!(
            "{}|{}|{:?}|{:?}|{}|{}",
            String::from_utf8(c.name.clone()).unwrap(),
            String::from_utf8(c.owner.clone()).unwrap(),
            c.comment,
            c.status,
            deps.join(","),
            c.height
        ));
        out.push("(".to_string());
        outline(c, out);
        out.push(")".to_string());
    }
}

fn names_below(t: &Todo, out: &mut Vec<Vec<u8>>) {
    for c in &t.children {
        out.push(c.name.clone());
        names_below(c, out);
    }
}

#[test]
fn the_tree_made_from_the_rendered_text_is_the_same_tree() {
    let md = "intro\n# top\n- @ me\n- % first\n- % second\n- : mid leaf ~stub other\n# other\n- : leaf ~stub\n# mid\n- @ you\n- : leaf\ntext\n# ~leaf\n# alone\n";
    for targets in [vec![], vec!["top"], vec!["mid", "other"]] {
        let first = grow(md, &targets, "md");
        let text = String::from_utf8(first.render()).unwrap();
        let second = grow(&text, &targets, "md");
        let mut a = Vec::new();
        let mut b = Vec::new();
        outline(first.root(), &mut a);
        outline(second.root(), &mut b);
        assert_eq!(a, b, "{:?}", targets);
        assert!(!a.is_empty());
        assert_eq!(String::from_utf8(second.render()).unwrap(), text);
        let drawn: Vec<Vec<u8>> = second.dict().iter().map(|t| t.name.clone()).collect();
        let mut shown = Vec::new();
        names_below(first.root(), &mut shown);
        assert_eq!(drawn, shown);
    }
}
