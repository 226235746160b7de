use todotree::bytes;
use todotree::todo::{self, Todo};
use todotree::tree::Tree;
use todotree::{Status, TodoError};

fn read(md: &str, separator: &str, hide_comment: bool, hide_owner: bool) -> Result<(Vec<Todo>, Vec<Vec<u8>>), TodoError> {
    let mut dict = Vec::new();
    let mut prelude = Vec::new();
    Tree::readmd(&mut dict, &mut prelude, separator.as_bytes(), md.as_bytes(), hide_comment, hide_owner)?;
    Ok((dict, prelude))
}

fn strings(v: &[Vec<u8>]) -> Vec<String> {
    v.iter().map(|x| String::from_utf8(x.clone()).unwrap()).collect()
}

#[test]
fn a_definition_is_read_part_by_part() {
    let md = "intro\n\n# ~lawn\n- @ Avery\n- @ Dad\n- % mow\n- % water\n- : rake  ~mower\nnote\n";
    let (dict, prelude) = read(md, "\n", false, false).unwrap();
    assert_eq!(strings(&prelude), vec!["intro", ""]);
    assert_eq!(dict.len(), 1);
    let t = &dict[0];
    assert_eq!(t.name, b"lawn".to_vec());
    assert_eq!(t.status, Status::Completed);
    assert_eq!(t.owner, b"Avery Dad".to_vec());
    assert_eq!(strings(&t.comment), vec!["mow", "water"]);
    assert_eq!(strings(&t.dependencies), vec!["rake", "~mower"]);
    assert_eq!(strings(&t.auxilaries), vec!["note"]);
    assert!(t.children.is_empty());
    assert_eq!(t.height, 0);
}

#[test]
fn a_todo_without_following_lines_keeps_one_empty_line() {
    let (dict, _) = read("# a\n# b\n", "\n", false, false).unwrap();
    assert_eq!(strings(&dict[0].auxilaries), vec![""]);
    assert_eq!(strings(&dict[1].auxilaries), vec![""]);
    assert_eq!(dict[0].status, Status::Pending);
}

#[test]
fn the_separator_joins_comment_lines() {
    let (dict, _) = read("# a\n- % one\n- % two\n# b\n", "; ", false, false).unwrap();
    assert_eq!(strings(&dict[0].comment), vec!["one; two"]);
    assert_eq!(strings(&dict[1].comment), vec![""]);
}

#[test]
fn hidden_owners_and_comments_are_passed_over() {
    let (dict, _) = read("# a\n- @ me\n- % text\n", "\n", true, true).unwrap();
    assert!(dict[0].owner.is_empty());
    assert!(dict[0].comment.is_empty());
    let (dict, _) = read("# a\n- @ me\n- % text\n", "\n", true, false).unwrap();
    assert_eq!(dict[0].owner, b"me".to_vec());
    assert!(dict[0].comment.is_empty());
}

#[test]
fn lines_are_read_without_the_white_space_around_them() {
    let md = "  \t# a \r\n\u{3000}- @ me\u{a0}\n- %\t  wide\u{2003}\n- :\u{1680}x\u{2028}y\n";
    let (dict, _) = read(md, "\n", false, false).unwrap();
    assert_eq!(dict[0].name, b"a".to_vec());
    assert_eq!(dict[0].owner, b"me".to_vec());
    assert_eq!(strings(&dict[0].comment), vec!["wide"]);
    assert_eq!(strings(&dict[0].dependencies), vec!["x", "y"]);
}

#[test]
fn escapes_are_resolved_before_lines_are_read() {
    assert_eq!(Tree::escape(b"a\\*b"), b"a*b".to_vec());
    assert_eq!(Tree::escape(b"a\\xb"), b"a\\xb".to_vec());
    assert_eq!(Tree::escape(b"a\\\\b"), b"a\\b".to_vec());
    assert_eq!(Tree::escape(b"tab\there"), b"tab here".to_vec());
    assert_eq!(Tree::escape(b"end\\"), b"end\\".to_vec());
    assert_eq!(Tree::escape(b"\\\t"), b"\\ ".to_vec());
    assert_eq!(Tree::escape(b""), Vec::<u8>::new());
    let (dict, _) = read("\\# a\n# b\n- % \\#1 \\_x\\_\n", "\n", false, false).unwrap();
    assert_eq!(dict.len(), 2);
    assert_eq!(strings(&dict[1].comment), vec!["#1 _x_"]);
}

#[test]
fn attribute_before_the_first_header_is_refused() {
    for md in ["- @ me\n# a\n", "- % text\n# a\n", "x\n- : a\n"] {
        let e = read(md, "\n", false, false).err().unwrap();
        assert_eq!(e.code(), 13, "{}", md);
    }
    assert!(read("- @ me\n# a\n", "\n", false, true).is_ok());
}

#[test]
fn reserved_names_are_refused() {
    for md in ["# /\n", "# ~/\n", "# ~\n", "# a\n# /\n"] {
        let e = read(md, "\n", false, false).err().unwrap();
        assert_eq!(e.code(), 9, "{}", md);
    }
}

#[test]
fn names_are_checked() {
    let e = read("# a/\n", "\n", false, false).err().unwrap();
    assert_eq!(e.code(), 18);
    match read("# a b\n#c\n", "\n", false, false).err().unwrap() {
        TodoError::UnsupportedCharacter { name, byte } => {
            assert_eq!(name, b"a b".to_vec());
            assert_eq!(byte, b' ');
        }
        other => panic!("{:?}", other),
    }
    let e = read("# a/b\n", "\n", false, false).err().unwrap();
    assert_eq!(e.code(), 1);
    let e = read("# a~b\n", "\n", false, false).err().unwrap();
    assert_eq!(e.code(), 1);
    let (dict, _) = read("# ~a\n# Az09!@$%&()-_=+:'\".?\n", "\n", false, false).unwrap();
    assert_eq!(dict[0].name, b"a".to_vec());
    assert_eq!(dict[0].status, Status::Completed);
    assert_eq!(dict[1].name, b"Az09!@$%&()-_=+:'\".?".to_vec());
}

#[test]
fn only_the_leading_marker_is_taken_off() {
    assert_eq!(todo::bare(b"~a"), b"a".to_vec());
    assert_eq!(todo::bare(b"a"), b"a".to_vec());
    assert_eq!(todo::bare(b"~a~b~"), b"a~b~".to_vec());
    assert_eq!(todo::bare(b"a~"), b"a~".to_vec());
    assert_eq!(todo::bare(b"~~a"), b"~a".to_vec());
    assert_eq!(todo::bare(b"~"), Vec::<u8>::new());
    assert_eq!(todo::bare(b""), Vec::<u8>::new());
    for md in ["# ~a~b\n", "# ~~a\n", "# a~\n"] {
        match read(md, "\n", false, false).err().unwrap() {
            TodoError::UnsupportedCharacter { byte, .. } => assert_eq!(byte, b'~', "{}", md),
            other => panic!("{:?}", other),
        }
    }
    match read("# ~a~b\n", "\n", false, false).err().unwrap() {
        TodoError::UnsupportedCharacter { name, .. } => assert_eq!(name, b"a~b".to_vec()),
        other => panic!("{:?}", other),
    }
    let made = Todo::new(b"~a~b".to_vec(), Vec::new(), Vec::new(), Vec::new(), Vec::new());
    assert_eq!(made.err().unwrap().code(), 1);
}

#[test]
fn duplicate_names_are_refused() {
    match read("# a\n# b\n# ~a\n", "\n", false, false).err().unwrap() {
        TodoError::DuplicateName { name } => assert_eq!(name, b"a".to_vec()),
        other => panic!("{:?}", other),
    }
}

#[test]
fn self_dependency_is_found_markers_aside() {
    for md in ["# a\n- : b a\n", "# ~a\n- : a\n", "# a\n- : ~a\n", "# a\n- : b\n- : a\n"] {
        let e = read(md, "\n", false, false).err().unwrap();
        assert_eq!(e.code(), 16, "{}", md);
    }
}

#[test]
fn text_is_cut_into_lines_and_words() {
    assert_eq!(strings(&bytes::split_lines(b"a\n\nb\n")), vec!["a", "", "b"]);
    assert_eq!(strings(&bytes::split_lines(b"a\nb")), vec!["a", "b"]);
    assert_eq!(strings(&bytes::split_lines(b"\n")), vec![""]);
    assert!(bytes::split_lines(b"").is_empty());
    assert_eq!(strings(&bytes::split_words(b"  one\ttwo \n three ")), vec!["one", "two", "three"]);
    assert!(bytes::split_words(b" \t ").is_empty());
    assert_eq!(bytes::trim(b" \t a b \r\n"), b"a b".to_vec());
    assert_eq!(bytes::trim("\u{2003}x\u{85}".as_bytes()), b"x".to_vec());
    assert_eq!(bytes::trim(b"   "), Vec::<u8>::new());
    assert_eq!(bytes::join(&vec![b"a".to_vec(), b"".to_vec(), b"c".to_vec()], b", "), b"a, , c".to_vec());
    assert_eq!(bytes::join(&Vec::new(), b", "), Vec::<u8>::new());
    assert_eq!(bytes::digits(0), b"0".to_vec());
    assert_eq!(bytes::digits(1203), b"1203".to_vec());
    let mut out = b"n=".to_vec();
    bytes::append_zero_padded(&mut out, 7, 3);
    bytes::append_zero_padded(&mut out, 1234, 3);
    assert_eq!(out, b"n=0071234".to_vec());
    assert!(bytes::starts_with(b"- @x", b"- @"));
    assert!(!bytes::starts_with(b"- ", b"- @"));
    assert!(bytes::equal(b"ab", b"ab") && !bytes::equal(b"ab", b"abc"));
}

#[test]
fn new_todo_reads_the_marker() {
    let t = Todo::new(b"~done".to_vec(), b"me".to_vec(), vec![b"c".to_vec()], vec![b"x".to_vec()], Vec::new()).unwrap();
    assert_eq!(t.name, b"done".to_vec());
    assert_eq!(t.status, Status::Completed);
    assert_eq!(t.owner, b"me".to_vec());
    assert_eq!(strings(&t.auxilaries), vec![""]);
    let root = Todo::new(b"/".to_vec(), Vec::new(), Vec::new(), Vec::new(), vec![b"kept".to_vec()]).unwrap();
    assert_eq!(root.name, b"/".to_vec());
    assert_eq!(root.status, Status::Pending);
    assert_eq!(strings(&root.auxilaries), vec!["kept"]);
    assert_eq!(Todo::new(Vec::new(), Vec::new(), Vec::new(), Vec::new(), Vec::new()).err().unwrap().code(), 9);
    assert_eq!(Todo::new(b"x/".to_vec(), Vec::new(), Vec::new(), Vec::new(), Vec::new()).err().unwrap().code(), 18);
    assert_eq!(Todo::new("é".as_bytes().to_vec(), Vec::new(), Vec::new(), Vec::new(), Vec::new()).err().unwrap().code(), 1);
}
