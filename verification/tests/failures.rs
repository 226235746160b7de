use todotree::todo::Todo;
use todotree::tree::Tree;
use todotree::{Status, TodoError};

fn todo(name: &str, owner: &str, deps: &[&str]) -> Todo {
    Todo::new(
        name.as_bytes().to_vec(),
        owner.as_bytes().to_vec(),
        Vec::new(),
        deps.iter().map(|d| d.as_bytes().to_vec()).collect(),
        Vec::new(),
    )
    .unwrap()
}

fn names(dict: &[Todo]) -> Vec<String> {
    dict.iter().map(|t| String::from_utf8(t.name.clone()).unwrap()).collect()
}

fn read_onto(dict: &mut Vec<Todo>, md: &str) -> Result<(), TodoError> {
    let mut prelude = Vec::new();
    Tree::readmd(dict, &mut prelude, b"\n", md.as_bytes(), false, false)
}

#[test]
fn a_refused_header_leaves_what_was_filed_before_it() {
    let mut dict = vec![todo("z", "", &[])];
    let e = read_onto(&mut dict, "# a\n- : b\n# b c\n# d\n").err().unwrap();
    assert_eq!(e.code(), 1);
    assert_eq!(names(&dict), vec!["z", "a"]);
    assert_eq!(dict[1].dependencies, vec![b"b".to_vec()]);
}

#[test]
fn a_refused_line_leaves_its_definition_unfiled() {
    let mut dict = vec![todo("z", "", &[])];
    let e = read_onto(&mut dict, "# a\n# b\n- : b\n# c\n").err().unwrap();
    assert_eq!(e.code(), 16);
    assert_eq!(names(&dict), vec!["z", "a"]);
}

#[test]
fn a_refused_last_definition_leaves_the_others() {
    let mut dict = Vec::new();
    let e = read_onto(&mut dict, "# a\n# b\n# a\n- @ me\n").err().unwrap();
    match e {
        TodoError::DuplicateName { name } => assert_eq!(name, b"a".to_vec()),
        other => panic!("{:?}", other),
    }
    assert_eq!(names(&dict), vec!["a", "b"]);
    assert!(dict[0].owner.is_empty());
}

#[test]
fn a_refused_todo_leaves_the_store_alone() {
    let mut dict = vec![todo("a", "", &[])];
    let mut prelude = vec![b"intro".to_vec()];
    let r = Tree::new_todo_if_any(
        &mut dict,
        &mut prelude,
        b"\n",
        b"a".to_vec(),
        b"me".to_vec(),
        Vec::new(),
        Vec::new(),
        Vec::new(),
    );
    assert_eq!(r.err().unwrap().code(), 14);
    assert_eq!(names(&dict), vec!["a"]);
    assert!(dict[0].owner.is_empty());
    assert_eq!(prelude, vec![b"intro".to_vec()]);
    let r = Tree::new_todo_if_any(
        &mut dict,
        &mut prelude,
        b"\n",
        Vec::new(),
        b"me".to_vec(),
        Vec::new(),
        Vec::new(),
        vec![b"text".to_vec()],
    );
    assert_eq!(r.err().unwrap().code(), 13);
    assert_eq!(names(&dict), vec!["a"]);
    assert_eq!(prelude, vec![b"intro".to_vec()]);
}

#[test]
fn a_refused_reference_leaves_no_stub() {
    let mut dict = vec![todo("a", "", &["x", "~b", "y"]), todo("b", "", &[])];
    let e = Tree::check_todos_in_dep_only(&mut dict, true).err().unwrap();
    assert_eq!(e.code(), 11);
    assert_eq!(names(&dict), vec!["a", "b"]);
    let mut dict = vec![todo("a", "", &["x", "y~z"])];
    let e = Tree::check_todos_in_dep_only(&mut dict, true).err().unwrap();
    assert_eq!(e.code(), 1);
    assert_eq!(names(&dict), vec!["a"]);
    let mut dict = vec![todo("a", "", &["x"]), todo("b", "", &["~x", "x"])];
    let e = Tree::check_todos_in_dep_only(&mut dict, true).err().unwrap();
    assert_eq!(e.code(), 12);
    assert_eq!(names(&dict), vec!["a", "b"]);
}

#[test]
fn inner_markers_belong_to_the_name_of_a_reference() {
    let mut dict = vec![todo("a", "", &["~~b"]), todo("b", "", &[])];
    match Tree::check_todos_in_dep_only(&mut dict, false).err().unwrap() {
        TodoError::MissingTodo { name } => assert_eq!(name, b"~b".to_vec()),
        other => panic!("{:?}", other),
    }
    let mut dict = vec![todo("a", "", &["b~"]), todo("b", "", &[])];
    match Tree::check_todos_in_dep_only(&mut dict, false).err().unwrap() {
        TodoError::MissingTodo { name } => assert_eq!(name, b"b~".to_vec()),
        other => panic!("{:?}", other),
    }
    let mut dict = vec![todo("a", "", &["b"]), todo("b", "", &[])];
    assert!(Tree::check_todos_in_dep_only(&mut dict, false).is_ok());
    assert_eq!(names(&dict), vec!["a", "b"]);
}

#[test]
fn a_failed_walk_leaves_the_flags_where_it_stopped() {
    let map = vec![todo("a", "me", &["b", "c"]), todo("b", "", &[]), todo("c", "", &["gone"])];
    let mut root = todo("/", "", &["a"]);
    let mut visited = vec![false; 3];
    let mut path = vec![false; 3];
    let mut used = vec![false; 2];
    let mut maxlens = [3usize, 0, 0];
    let owners = vec![b"me".to_vec(), b"you".to_vec()];
    let r = root.build_tree(&mut visited, &map, &mut maxlens, &mut path, 0, 80, false, 0, &owners, &mut used);
    match r.err().unwrap() {
        TodoError::MissingTodo { name } => assert_eq!(name, b"gone".to_vec()),
        other => panic!("{:?}", other),
    }
    assert!(root.children.is_empty());
    assert_eq!(root.name, b"/".to_vec());
    assert_eq!(root.status, Status::Pending);
    assert_eq!(visited, vec![true, true, true]);
    assert_eq!(path, vec![true, false, true]);
    assert_eq!(used, vec![true, false]);
    assert_eq!(maxlens, [3, 0, 0]);
}

#[test]
fn a_failed_walk_keeps_the_children_adopted_before() {
    let map = vec![todo("a", "", &[]), todo("b", "", &["b2"]), todo("b2", "", &["b"])];
    let mut root = todo("/", "", &["a", "b"]);
    let mut visited = vec![false; 3];
    let mut path = vec![false; 3];
    let mut used = Vec::new();
    let mut maxlens = [0usize; 3];
    let r = root.build_tree(&mut visited, &map, &mut maxlens, &mut path, 0, 80, false, 0, &Vec::new(), &mut used);
    match r.err().unwrap() {
        TodoError::DependencyLoop { name } => assert_eq!(name, b"b2".to_vec()),
        other => panic!("{:?}", other),
    }
    assert_eq!(names(&root.children), vec!["a"]);
    assert_eq!(root.height, 1);
    assert_eq!(visited, vec![true, true, true]);
    assert_eq!(path, vec![false, true, true]);
    assert_eq!(maxlens, [0, 0, 0]);
}

#[test]
fn a_screen_too_narrow_leaves_the_tree_resolved_and_measured() {
    let map = vec![todo("abc", "me", &[])];
    let mut root = todo("/", "", &["abc"]);
    let mut visited = vec![false; 1];
    let mut path = vec![false; 1];
    let mut used = Vec::new();
    let mut maxlens = [0usize; 3];
    let r = root.build_tree(&mut visited, &map, &mut maxlens, &mut path, 0, 10, false, 0, &Vec::new(), &mut used);
    assert_eq!(r.err().unwrap().code(), 5);
    assert_eq!(names(&root.children), vec!["abc"]);
    assert_eq!(root.owner, b"OWNER".to_vec());
    assert!(root.comment.is_empty());
    assert_eq!(root.status, Status::Pending);
    assert_eq!(maxlens, [7, 5, 0]);
    assert_eq!(visited, vec![true]);
    assert_eq!(path, vec![false]);

    let mut again = todo("/", "", &[]);
    again.children.push(todo("abc", "me", &[]));
    let mut widths = [0usize; 3];
    let r = again.get_maxlens(&mut widths, 0, 10);
    assert_eq!(r.err().unwrap().code(), 5);
    assert_eq!(again.owner, b"OWNER".to_vec());
    assert_eq!(widths, [7, 5, 0]);
}

#[test]
fn the_root_is_known_by_the_name_it_comes_with() {
    let map = vec![todo("b", "me", &[])];
    let mut odd = Todo {
        name: Vec::new(),
        owner: Vec::new(),
        comment: Vec::new(),
        dependencies: vec![b"b".to_vec()],
        auxilaries: Vec::new(),
        children: Vec::new(),
        height: 0,
        status: Status::Pending,
    };
    let mut visited = vec![false; 1];
    let mut path = vec![false; 1];
    let mut used = Vec::new();
    let mut maxlens = [0usize; 3];
    let r = odd.build_tree(&mut visited, &map, &mut maxlens, &mut path, 1, 1, false, 1, &Vec::new(), &mut used);
    assert_eq!(r.ok(), Some(true));
    assert_eq!(odd.name, b"/".to_vec());
    assert!(odd.owner.is_empty());
    assert_eq!(maxlens, [0, 0, 0]);
    assert_eq!(visited, vec![false]);
}

fn plant(md: &str, targets: &[&str]) -> Result<Tree, TodoError> {
    Tree::new(
        &vec![md.as_bytes().to_vec()],
        &Vec::new(),
        &targets.iter().map(|t| t.as_bytes().to_vec()).collect(),
        80,
        b"md",
        false,
        0,
        b"\n",
        true,
        false,
        false,
        false,
        false,
    )
}

#[test]
fn a_loop_within_reach_is_what_fails() {
    let md = "# top\n- : x a\n# x\n# a\n- : b\n# b\n- : a\n";
    match plant(md, &[]).err().unwrap() {
        TodoError::DependencyLoop { name } => assert_eq!(name, b"b".to_vec()),
        other => panic!("{:?}", other),
    }
    match plant(md, &["b"]).err().unwrap() {
        TodoError::DependencyLoop { name } => assert_eq!(name, b"a".to_vec()),
        other => panic!("{:?}", other),
    }
    assert!(plant(md, &["x"]).is_ok());
}

#[test]
fn an_unfinished_todo_met_first_comes_before_the_loop() {
    let md = "# top\n- : x a\n# ~x\n- : y\n# y\n# a\n- : b\n# b\n- : a\n";
    match plant(md, &[]).err().unwrap() {
        TodoError::UnfinishedDependencies { name, pending } => {
            assert_eq!(name, b"x".to_vec());
            assert_eq!(pending, vec![b"y".to_vec()]);
        }
        other => panic!("{:?}", other),
    }
    let md = "# top\n- : a x\n# ~x\n- : y\n# y\n# a\n- : b\n# b\n- : a\n";
    assert_eq!(plant(md, &[]).err().unwrap().code(), 2);
}

#[test]
fn the_todos_of_a_tree_have_distinct_names() {
    let md = "# a\n- : b c\n# b\n- : c ~d\n# c\n- : ~d\n";
    let tree = Tree::new(
        &vec![md.as_bytes().to_vec()],
        &Vec::new(),
        &Vec::new(),
        80,
        b"term",
        false,
        0,
        b"\n",
        true,
        true,
        false,
        false,
        false,
    )
    .unwrap();
    let all = names(tree.dict());
    assert_eq!(all, vec!["a", "b", "c", "d"]);
    for (i, n) in all.iter().enumerate() {
        assert!(!all[..i].contains(n));
    }
}
