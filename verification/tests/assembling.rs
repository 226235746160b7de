use todotree::todo::Todo;
use todotree::tree::Tree;
use todotree::{ErrorKind, Status, TodoError};

fn plant_with(
    files: &[&str],
    owners: &[&str],
    targets: &[&str],
    auto_add: bool,
) -> Result<Tree, TodoError> {
    Tree::new(
        &files.iter().map(|f| f.as_bytes().to_vec()).collect(),
        &owners.iter().map(|f| f.as_bytes().to_vec()).collect(),
        &targets.iter().map(|f| f.as_bytes().to_vec()).collect(),
        80,
        b"term",
        false,
        0,
        b"\n",
        true,
        auto_add,
        true,
        true,
        false,
    )
}

fn text(tree: &Tree) -> String {
    String::from_utf8(tree.render()).unwrap()
}

fn names(dict: &[Todo]) -> Vec<String> {
    dict.iter().map(|t| String::from_utf8(t.name.clone()).unwrap()).collect()
}

#[test]
fn tops_stand_below_the_root_in_definition_order() {
    let tree = plant_with(&["# z\n# m\n- : a\n# a\n# b\n"], &[], &[], false).unwrap();
    assert_eq!(text(&tree), "/\n├── z\n├── m\n│   └── a\n└── b\n");
    assert_eq!(tree.root().status, Status::Pending);
    assert_eq!(tree.root().children[1].status, Status::Pending);
    assert_eq!(tree.root().children[0].status, Status::Actionable);
}

#[test]
fn targets_stand_below_the_root_when_given() {
    let md = "# z\n# m\n- : a\n# ~a\n# b\n";
    let tree = plant_with(&[md], &[], &["b", "a"], false).unwrap();
    assert_eq!(text(&tree), "/\n├── b\n└── a\n");
    let tree = plant_with(&[md], &[], &["m", "a"], false).unwrap();
    assert_eq!(text(&tree), "/\n└── m\n    └── a\n");
    match plant_with(&[md], &[], &["nope"], false).err().unwrap() {
        TodoError::MissingTodo { name } => assert_eq!(name, b"nope".to_vec()),
        other => panic!("{:?}", other),
    }
}

#[test]
fn undefined_dependencies_are_added_on_request() {
    let md = "# a\n- : b ~c\n# d\n- : ~c b\n";
    match plant_with(&[md], &[], &[], false).err().unwrap() {
        TodoError::MissingTodo { name } => assert_eq!(name, b"b".to_vec()),
        other => panic!("{:?}", other),
    }
    let tree = plant_with(&[md], &[], &[], true).unwrap();
    assert_eq!(names(tree.dict()), vec!["a", "d", "b", "c"]);
    assert_eq!(tree.dict()[2].status, Status::Pending);
    assert_eq!(tree.dict()[3].status, Status::Completed);
    assert_eq!(text(&tree), "/\n├── a\n│   ├── b\n│   └── c\n└── d\n");
    assert_eq!(tree.root().children[1].status, Status::Pending);
}

#[test]
fn markers_on_references_must_agree() {
    match plant_with(&["# a\n- : ~x\n# b\n- : x\n"], &[], &[], true).err().unwrap() {
        TodoError::ConflictingMarkers { name, first, second } => {
            assert_eq!(name, b"x".to_vec());
            assert_eq!(first, b"a".to_vec());
            assert_eq!(second, b"b".to_vec());
        }
        other => panic!("{:?}", other),
    }
    match plant_with(&["# a\n- : ~b\n# b\n"], &[], &[], true).err().unwrap() {
        TodoError::MarkedDefinition { name, parent } => {
            assert_eq!(name, b"b".to_vec());
            assert_eq!(parent, b"a".to_vec());
        }
        other => panic!("{:?}", other),
    }
    let e = plant_with(&["# a\n- : /\n"], &[], &[], true).err().unwrap();
    assert_eq!(e.code(), 9);
    let e = plant_with(&["# a\n- : x/\n"], &[], &[], true).err().unwrap();
    assert_eq!(e.code(), 18);
}

#[test]
fn completed_todo_needs_completed_dependencies() {
    match plant_with(&["# ~a\n- : b ~c d\n# b\n# d\n"], &[], &[], true).err().unwrap() {
        TodoError::UnfinishedDependencies { name, pending } => {
            assert_eq!(name, b"a".to_vec());
            assert_eq!(pending, vec![b"b".to_vec(), b"d".to_vec()]);
        }
        other => panic!("{:?}", other),
    }
    assert!(plant_with(&["# ~a\n- : ~c\n"], &[], &[], true).is_ok());
}

#[test]
fn files_are_read_one_after_the_other() {
    let tree = plant_with(&["first\n# a\n- : b\n", "second\n# b\n"], &[], &[], false).unwrap();
    assert_eq!(text(&tree), "/\n└── a\n    └── b\n");
    assert_eq!(tree.auxilaries(), &vec![b"second".to_vec()]);
    let e = plant_with(&["# a\n", "# a\n"], &[], &[], false).err().unwrap();
    assert_eq!(e.code(), 14);
    let e = plant_with(&["nothing here\n"], &[], &[], false).err().unwrap();
    assert_eq!(e.code(), 10);
    assert_eq!(e.kind(), ErrorKind::Structure);
    let e = plant_with(&[], &[], &[], false).err().unwrap();
    assert_eq!(e.code(), 10);
}

#[test]
fn owners_choose_the_branches() {
    let files = ["# a\n- @ x\n- : b c\n# b\n- @ y\n# c\n- : d\n# d\n- @ y\n# e\n- @ z\n"];
    let plant = |owners: &[&str]| {
        Tree::new(
            &files.iter().map(|f| f.as_bytes().to_vec()).collect(),
            &owners.iter().map(|f| f.as_bytes().to_vec()).collect(),
            &Vec::new(),
            80,
            b"term",
            false,
            0,
            b"\n",
            true,
            false,
            true,
            false,
            false,
        )
    };
    let tree = plant(&["y"]).unwrap();
    let expected = "\
/             │ OWNER │
│             ├───────┤
└── a         │ x     │
    │         ├───────┤
    ├── b     │ y     │
    │         ├───────┤
    └── c     │       │
        │     ├───────┤
        └── d │ y     │
              └───────┘
";
    assert_eq!(text(&tree), expected);
    let tree = plant(&["z", "x"]).unwrap();
    let shown = text(&tree);
    assert!(shown.contains("── a") && shown.contains("── e"));
    assert!(!shown.contains("── b") && !shown.contains("── c"));
    match plant(&["y", "nobody"]).err().unwrap() {
        TodoError::UnknownOwner { owner } => assert_eq!(owner, b"nobody".to_vec()),
        other => panic!("{:?}", other),
    }
    assert_eq!(plant(&["nobody"]).err().unwrap().kind(), ErrorKind::Configuration);
}
