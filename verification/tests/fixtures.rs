use todotree::tree::Tree;

const EXAMPLE: &str = "# A\n- : B C\n# B\n- : C\n# ~C\n";

struct Shown {
    name: &'static str,
    status: &'static str,
    deps: &'static str,
    children: Vec<Shown>,
}

fn shown(name: &'static str, status: &'static str, deps: &'static str, children: Vec<Shown>) -> Shown {
    Shown { name, status, deps, children }
}

fn expected_tree(hide: bool, depth: i32) -> Shown {
    let c = || shown("C", "Completed", "", Vec::new());
    let a = match (hide, depth) {
        (false, 0) => shown("A", "Pending", "B C", vec![shown("B", "Actionable", "C", vec![c()])]),
        (true, 0) => shown("A", "Pending", "B C", vec![shown("B", "Actionable", "C", Vec::new())]),
        (false, 2) => shown("A", "Pending", "B C", vec![shown("B/", "Actionable", "C", Vec::new()), c()]),
        _ => shown("A", "Pending", "B C", vec![shown("B/", "Actionable", "C", Vec::new())]),
    };
    shown("/", "Pending", "", vec![a])
}

fn term(t: &Shown, prefix: &str, own: &str, out: &mut String) {
    let name = match t.status {
        "Completed" => format!("\x1b[34m{}\x1b(B\x1b[m", t.name),
        "Actionable" => format!("\x1b[31m{}\x1b(B\x1b[m", t.name),
        _ => t.name.to_string(),
    };
    out.push_str(&format!("{}{}{}\n", prefix, own, name));
    let below = match own {
        "" => String::new(),
        "└── " => format!("{}    ", prefix),
        _ => format!("{}│   ", prefix),
    };
    for (i, c) in t.children.iter().enumerate() {
        let last = i + 1 == t.children.len();
        term(c, &below, if last { "└── " } else { "├── " }, out);
    }
}

fn html(t: &Shown, prefix: &str, own: &str, out: &mut String) {
    let p = "<p style='font-family: monospace; font-size: 16px; margin: 0px; line-height: 16px'>";
    let name = match t.status {
        "Completed" => format!("<span style='color:blue'>{}</span>", t.name),
        "Actionable" => format!("<span style='color:red'>{}</span>", t.name),
        _ => t.name.to_string(),
    };
    out.push_str(&format!("{}{}{}{}</p>\n", p, prefix, own, name));
    let below = match own {
        "" => String::new(),
        "└──&nbsp;" => format!("{}&nbsp;&nbsp;&nbsp;&nbsp;", prefix),
        _ => format!("{}│&nbsp;&nbsp;&nbsp;", prefix),
    };
    for (i, c) in t.children.iter().enumerate() {
        let last = i + 1 == t.children.len();
        html(c, &below, if last { "└──&nbsp;" } else { "├──&nbsp;" }, out);
    }
}

fn json(t: &Shown, depth: usize, out: &mut String) {
    let pad = " ".repeat(depth * 4);
    out.push_str(&format!("{}{{\n", pad));
    out.push_str(&format!("{}  \"name\": \"{}\",\n", pad, t.name));
    out.push_str(&format!("{}  \"status\": \"{}\",\n", pad, t.status));
    out.push_str(&format!("{}  \"dependencies\": [\n", pad));
    for (i, c) in t.children.iter().enumerate() {
        if i > 0 {
            out.push_str(&format!("{}    ,\n", pad));
        }
        json(c, depth + 1, out);
    }
    out.push_str(&format!("{}  ]\n", pad));
    out.push_str(&format!("{}}}\n", pad));
}

fn md(t: &Shown, out: &mut String) {
    if t.name != "/" {
        out.push_str(&format!("# {}{}\n", if t.status == "Completed" { "~" } else { "" }, t.name));
        if !t.deps.is_empty() {
            out.push_str(&format!("- : {}\n", t.deps));
        }
        out.push('\n');
    }
    for c in &t.children {
        md(c, out);
    }
}

#[test]
fn examples() {
    let inputs = vec![EXAMPLE.as_bytes().to_vec()];
    for idx in 0..4 {
        let (hide, depth) = match idx {
            0 => (false, 0),
            1 => (true, 0),
            2 => (false, 2),
            _ => (false, -1),
        };
        for format in vec!["term", "json", "html", "md"] {
            let result = Tree::new(
                &inputs,
                &Vec::new(),
                &Vec::new(),
                80,
                format.as_bytes(),
                hide,
                depth,
                b"\n",
                false,
                true,
                false,
                false,
                false,
            );
            let tree = match result {
                Ok(t) => t,
                Err(e) => panic!("format: {}, e: {}", format, String::from_utf8_lossy(&e.message())),
            };
            let output = String::from_utf8(tree.render()).unwrap();
            let want = expected_tree(hide, depth);
            let mut standard = String::new();
            match format {
                "term" => term(&want, "", "", &mut standard),
                "json" => json(&want, 0, &mut standard),
                "html" => html(&want, "", "", &mut standard),
                _ => md(&want, &mut standard),
            }
            assert!(
                standard == output,
                "format: {}, hide: {}, depth: {}\n{}\n{}",
                format,
                hide,
                depth,
                standard,
                output
            );
        }
    }
}

#[test]
fn errors() {
    let cases: Vec<(u32, &str, &str)> = vec![
        (1, "", "# a b\n"),
        (2, "", "# top\n- : a\n# a\n- : b\n# b\n- : a\n"),
        (3, "", "# a\n- : gone\n"),
        (4, "", "# ~a\n- : b\n# b\n"),
        (5, "", "# a-name-that-is-far-too-long-for-a-screen-of-eighty-columns-to-hold-it-with-an-owner\n- @ me\n"),
        (7, "", "# a\n- : b\n# b\n- : a\n"),
        (9, "", "# /\n"),
        (10, "", "nothing\n"),
        (11, "A", "# a\n- : ~b\n# b\n"),
        (12, "A", "# a\n- : ~x\n# b\n- : x\n"),
        (13, "", "- @ me\n# a\n"),
        (14, "", "# a\n# a\n"),
        (16, "", "# a\n- : a\n"),
        (18, "", "# a/\n"),
        (22, "oAvery,Nobody", "# a\n- @ Avery\n"),
    ];
    for (code, options, md) in cases {
        let mut auto_add = false;
        let mut owners: Vec<Vec<u8>> = Vec::new();
        for opt in options.split("-") {
            if opt.starts_with('A') {
                auto_add = true;
            } else if opt.starts_with('o') {
                owners = opt[1..].split(",").map(|s| s.as_bytes().to_vec()).collect();
            }
        }
        match Tree::new(
            &vec![md.as_bytes().to_vec()],
            &owners,
            &vec![],
            80,
            b"term",
            false,
            0,
            b" ",
            false,
            auto_add,
            false,
            false,
            false,
        ) {
            Err(e) => {
                let msg = String::from_utf8_lossy(&e.message()).into_owned();
                assert!(msg.starts_with(&format!("ERR-{:03}", code)), "{}, {}", md, msg);
                assert_eq!(e.code(), code);
            }
            _ => {
                panic!("no error for {}", md);
            }
        }
    }
}
