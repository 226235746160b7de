use todotree::todo::Todo;
use todotree::tree::Tree;
use todotree::{Format, Status, TodoError};

fn todo(name: &str, deps: &[&str]) -> Todo {
    Todo::new(
        name.as_bytes().to_vec(),
        Vec::new(),
        Vec::new(),
        deps.iter().map(|d| d.as_bytes().to_vec()).collect(),
        Vec::new(),
    )
    .unwrap()
}

struct Run {
    root: Todo,
    visited: Vec<bool>,
    path: Vec<bool>,
    used: Vec<bool>,
    maxlens: [usize; 3],
    result: Result<bool, TodoError>,
}

fn build(map: &Vec<Todo>, targets: &[&str], owners: &[&str], hide: bool, limit: i32, width: usize) -> Run {
    let mut root = todo("/", targets);
    let mut visited = vec![false; map.len()];
    let mut path = vec![false; map.len()];
    let mut used = vec![false; owners.len()];
    let mut maxlens = [0usize; 3];
    let owners: Vec<Vec<u8>> = owners.iter().map(|o| o.as_bytes().to_vec()).collect();
    let result = root.build_tree(
        &mut visited,
        map,
        &mut maxlens,
        &mut path,
        0,
        width,
        hide,
        limit,
        &owners,
        &mut used,
    );
    Run { root, visited, path, used, maxlens, result }
}

fn shape(t: &Todo) -> String {
    let mut s = String::from_utf8(t.name.clone()).unwrap();
    if !t.children.is_empty() {
        s.push('(');
        s.push_str(&t.children.iter().map(shape).collect::<Vec<_>>().join(" "));
        s.push(')');
    }
    s
}

fn diamond() -> Vec<Todo> {
    vec![todo("a", &["b", "c"]), todo("b", &["d"]), todo("c", &["d"]), todo("~d", &[])]
}

#[test]
fn first_parent_in_walk_order_shows_the_shared_todo() {
    let run = build(&diamond(), &["a"], &[], false, 0, 80);
    assert_eq!(run.result.unwrap(), true);
    assert_eq!(shape(&run.root), "/(a(b(d) c))");
    assert_eq!(run.visited, vec![true, true, true, true]);
    assert_eq!(run.path, vec![false, false, false, false]);
    assert_eq!(run.root.height, 3);
    assert_eq!(run.root.children[0].height, 2);
    assert_eq!(run.root.children[0].children[1].height, 0);
    assert_eq!(run.root.children[0].children[1].status, Status::Actionable);
    assert_eq!(run.maxlens, [13, 0, 0]);
    let run = build(&diamond(), &["c", "a"], &[], false, 0, 80);
    assert_eq!(shape(&run.root), "/(c(d) a(b))");
}

#[test]
fn resolving_twice_gives_the_same_tree() {
    let one = build(&diamond(), &["a"], &[], false, 0, 80);
    let two = build(&diamond(), &["a"], &[], false, 0, 80);
    assert_eq!(shape(&one.root), shape(&two.root));
    let render = |t: &Todo, m: &[usize; 3]| {
        let mut out = Vec::new();
        t.fmt_tree(&mut out, &mut Vec::new(), m, &Format::Term, false, false);
        out
    };
    assert_eq!(render(&one.root, &one.maxlens), render(&two.root, &two.maxlens));
}

#[test]
fn depth_limits_cut_the_walk() {
    let run = build(&diamond(), &["a"], &[], false, 2, 80);
    assert_eq!(shape(&run.root), "/(a(b/ c/))");
    assert_eq!(run.visited, vec![true, true, true, false]);
    assert_eq!(run.root.children[0].children[0].status, Status::Actionable);
    let run = build(&diamond(), &["a"], &[], false, -1, 80);
    assert_eq!(shape(&run.root), "/(a(b/))");
    assert_eq!(run.visited, vec![true, true, true, true]);
    assert_eq!(run.root.children[0].height, 2);
    let run = build(&diamond(), &["a"], &[], false, -2, 80);
    assert_eq!(shape(&run.root), "/(a/)");
    let run = build(&diamond(), &["a"], &[], false, i32::MIN, 80);
    assert_eq!(shape(&run.root), "/");
    let run = build(&diamond(), &["a"], &[], false, i32::MAX, 80);
    assert_eq!(shape(&run.root), "/(a(b(d) c))");
}

#[test]
fn hidden_todos_still_count_as_visited() {
    let run = build(&diamond(), &["a"], &[], true, 0, 80);
    assert_eq!(shape(&run.root), "/(a(b c))");
    assert_eq!(run.visited, vec![true, true, true, true]);
}

#[test]
fn walk_starts_from_what_was_visited_before() {
    let map = diamond();
    let mut root = todo("/", &["a"]);
    let mut visited = vec![false, true, false, false];
    let mut path = vec![false; 4];
    let mut used = Vec::new();
    let mut maxlens = [0usize; 3];
    let owned = root
        .build_tree(&mut visited, &map, &mut maxlens, &mut path, 0, 80, false, 0, &Vec::new(), &mut used)
        .unwrap();
    assert!(owned);
    assert_eq!(shape(&root), "/(a(c(d)))");
}

#[test]
fn loops_and_missing_todos_stop_the_walk() {
    let map = vec![todo("a", &["b"]), todo("b", &["c"]), todo("c", &["a"])];
    match build(&map, &["b"], &[], false, 0, 80).result.err().unwrap() {
        TodoError::DependencyLoop { name } => assert_eq!(name, b"a".to_vec()),
        other => panic!("{:?}", other),
    }
    let map = vec![todo("a", &["a"])];
    match build(&map, &["a"], &[], false, 0, 80).result.err().unwrap() {
        TodoError::DependencyLoop { name } => assert_eq!(name, b"a".to_vec()),
        other => panic!("{:?}", other),
    }
    let map = vec![todo("a", &["~gone"])];
    match build(&map, &["a"], &[], false, 0, 80).result.err().unwrap() {
        TodoError::MissingTodo { name } => assert_eq!(name, b"gone".to_vec()),
        other => panic!("{:?}", other),
    }
    let map = vec![todo("a", &["b"]), todo("b", &["a"])];
    assert!(build(&map, &["a"], &[], false, 1, 80).result.is_ok());
}

#[test]
fn owners_are_marked_as_met() {
    let mut map = diamond();
    map[1].owner = b"x".to_vec();
    map[3].owner = b"y".to_vec();
    let run = build(&map, &["a"], &["y", "z", "y"], false, 0, 80);
    assert_eq!(run.result.unwrap(), true);
    assert_eq!(run.used, vec![true, false, true]);
    assert_eq!(shape(&run.root), "/(a(b(d)))");
    let run = build(&map, &["a"], &["z"], false, 0, 80);
    assert_eq!(run.result.unwrap(), false);
    assert_eq!(shape(&run.root), "/");
}

#[test]
fn column_widths_follow_the_tree() {
    let mut root = todo("/", &[]);
    let mut a = todo("abc", &[]);
    a.owner = b"someone".to_vec();
    a.comment = vec![b"short".to_vec(), b"a longer line".to_vec()];
    let mut b = todo("b", &[]);
    b.children.push(todo("deepest-name", &[]));
    root.children.push(a);
    root.children.push(b);
    let mut maxlens = [0usize; 3];
    root.get_maxlens(&mut maxlens, 0, 80).unwrap();
    assert_eq!(maxlens, [8 + 12, 7, 13]);
    assert_eq!(root.owner, b"OWNER".to_vec());
    assert_eq!(root.comment, vec![b"COMMENT".to_vec()]);
    let mut maxlens = [0usize; 3];
    root.get_maxlens(&mut maxlens, 0, 40).unwrap();
    assert_eq!(maxlens, [20, 7, 5]);
    let mut maxlens = [0usize; 3];
    root.get_maxlens(&mut maxlens, 0, 36).unwrap();
    assert_eq!(maxlens, [20, 7, 1]);
    let mut maxlens = [0usize; 3];
    match root.get_maxlens(&mut maxlens, 0, 35).err().unwrap() {
        TodoError::TooNarrow { width, needed } => assert_eq!((width, needed), (35, 35)),
        other => panic!("{:?}", other),
    }
    let mut maxlens = [30usize, 0, 2];
    root.children[0].get_maxlens(&mut maxlens, 3, 1).unwrap();
    assert_eq!(maxlens, [30, 7, 13]);
    let mut maxlens = [0usize; 3];
    root.children[1].get_maxlens(&mut maxlens, usize::MAX, 80).unwrap();
    assert_eq!(maxlens, [usize::MAX, 0, 0]);
}

#[test]
fn markdown_read_back_gives_the_todos_of_the_tree() {
    let md = "about\n# top\n- @ me you\n- : mid ~leaf\n- % first\n- % second\nnote\n# mid\n- : ~leaf\n";
    let plant = |text: &str| {
        Tree::new(
            &vec![text.as_bytes().to_vec()],
            &Vec::new(),
            &Vec::new(),
            80,
            b"md",
            false,
            0,
            b"\n",
            false,
            true,
            false,
            false,
            false,
        )
        .unwrap()
    };
    let tree = plant(md);
    let out = String::from_utf8(tree.render()).unwrap();
    assert_eq!(
        out,
        "about\n# top\n- @ me you\n- : mid leaf\n- % first\n- % second\nnote\n# mid\n- : leaf\n\n# ~leaf\n\n"
    );
    let again = plant(&out);
    assert_eq!(String::from_utf8(again.render()).unwrap(), out);
    assert_eq!(again.auxilaries(), tree.auxilaries());
    let flat = |t: &Tree| {
        let mut v: Vec<(Vec<u8>, Vec<u8>, Vec<Vec<u8>>, Status)> = Vec::new();
        let mut stack = vec![t.root()];
        while let Some(n) = stack.pop() {
            v.push((n.name.clone(), n.owner.clone(), n.comment.clone(), n.status));
            stack.extend(n.children.iter().rev());
        }
        v
    };
    assert_eq!(flat(&again), flat(&tree));
}
