//! The tree made again from what a tree renders in markdown: the same
//! tree, markers of dependencies aside.
use crate::{Format, Status};
use crate::assemble::{
    is_needed, target, tops, with_dependencies, with_dependency, with_stubs, Stubs,
};
use crate::byname::{
    holds_plain, law_building_by_names, lemma_plain_targets, names_unmarked, plain, same_flags,
};
use crate::grammar::{
    blank_draft, escaped, read, read_all, read_line, read_lines, DraftView, Notes, Reading,
};
use crate::kin::{
    child_names, is_family, lemma_below_holds, lemma_family_needed, lemma_tops, lemma_tops_unneeded,
    lemma_unneeded_shown, lemma_walk_adopts_tops, lemma_walk_kin, names, names_of, needs_tops,
};
use crate::laws::{
    has_pending, is_settled, law_tree_shows_all, law_tree_status_is_settled, lemma_find_from,
    lemma_find_own, lemma_gathered_distinct, lemma_read_all_distinct, settled_status, shown, uncut,
};
use crate::layout::Extent;
use crate::legibility::{
    is_copy, law_files_round_trip, lemma_found, lemma_name_is_word, lemma_read_all_sound,
    lemma_stub_needs_nothing, lemma_walk_copies, lemma_with_stubs_sound, same_parts, sound_todo,
};
use crate::loops::{all_defined, is_defined, lemma_with_stubs_defined};
use crate::render::unmarked;
use crate::resolve::{enter, find, fresh, walk, Options, Walk};
use crate::roundtrip::{is_tidy, lemma_shown_below, rereads};
use crate::text::{lines, NEWLINE, SLASH};
use crate::todo::{bare_name, below, distinct_names, is_marked, lemma_below_same, TodoView};
use crate::tree::{gathered, no_flags, planted, seed, DEFAULT_WIDTH, Request, TreeView};
use vstd::prelude::*;

verus! {

/// Whether the todos of the store are as they are defined, before anything
/// is resolved: none is actionable, and none has a name with a marker in
/// front.
pub open spec fn unresolved(store: Seq<TodoView>) -> bool {
    forall|j: int|
        0 <= j < store.len() ==> (#[trigger] store[j]).status != Status::Actionable && !is_marked(
            store[j].name,
        )
}

/// Reading a line files todos as they are defined.
pub proof fn lemma_read_line_unresolved(notes: Notes, draft: DraftView, line: Seq<u8>, how: Reading)
    requires
        unresolved(notes.dict),
    ensures
        match read_line(notes, draft, line, how) {
            Ok((after, _)) => unresolved(after.dict),
            Err(_) => true,
        },
{
    reveal(read_line);
}

/// Reading lines files todos as they are defined.
pub proof fn lemma_read_lines_unresolved(
    notes: Notes,
    draft: DraftView,
    text: Seq<Seq<u8>>,
    i: int,
    how: Reading,
)
    requires
        unresolved(notes.dict),
    ensures
        match read_lines(notes, draft, text, i, how) {
            Ok(after) => unresolved(after.dict),
            Err(_) => true,
        },
    decreases text.len() - i,
{
    if 0 <= i < text.len() {
        lemma_read_line_unresolved(notes, draft, text[i], how);
        match read_line(notes, draft, text[i], how) {
            Ok((after, next)) => {
                lemma_read_lines_unresolved(after, next, text, i + 1, how);
            },
            Err(_) => {},
        }
    }
}

/// Reading files files todos as they are defined.
pub proof fn lemma_read_all_unresolved(notes: Notes, inputs: Seq<Seq<u8>>, k: int, how: Reading)
    requires
        unresolved(notes.dict),
    ensures
        match read_all(notes, inputs, k, how) {
            Ok(after) => unresolved(after.dict),
            Err(_) => true,
        },
    decreases inputs.len() - k,
{
    if 0 <= k < inputs.len() {
        lemma_read_lines_unresolved(
            notes,
            blank_draft(Seq::empty()),
            lines(escaped(inputs[k])),
            0,
            how,
        );
        match read(notes, inputs[k], how) {
            Ok(after) => {
                lemma_read_all_unresolved(after, inputs, k + 1, how);
            },
            Err(_) => {},
        }
    }
}

/// The stubs are as they are defined.
pub proof fn lemma_with_dependencies_unresolved(
    dict: Seq<TodoView>,
    stubs: Stubs,
    auto_add: bool,
    i: int,
    j: int,
)
    requires
        unresolved(stubs.todos),
    ensures
        match with_dependencies(dict, stubs, auto_add, i, j) {
            Ok(after) => unresolved(after.todos),
            Err(_) => true,
        },
    decreases dict.len() - i, dict[i].dependencies.len() - j,
{
    if 0 <= i < dict.len() {
        if 0 <= j < dict[i].dependencies.len() {
            match with_dependency(dict, stubs, auto_add, dict[i].name, dict[i].dependencies[j]) {
                Ok(after) => {
                    lemma_with_dependencies_unresolved(dict, after, auto_add, i, j + 1);
                },
                Err(_) => {},
            }
        } else {
            lemma_with_dependencies_unresolved(dict, stubs, auto_add, i + 1, 0);
        }
    }
}

/// The todos gathered for a request are as they are defined.
pub proof fn lemma_gathered_unresolved(req: Request)
    ensures
        match gathered(req) {
            Ok((dict, _, _)) => unresolved(dict),
            Err(_) => true,
        },
{
    let start = Notes { dict: Seq::empty(), prelude: Seq::empty() };
    let how = Reading {
        separator: req.separator,
        hide_comment: req.hide_comment,
        hide_owner: req.hide_owner,
    };
    lemma_read_all_unresolved(start, req.inputs, 0, how);
    match read_all(start, req.inputs, 0, how) {
        Ok(notes) => {
            let none = Stubs { todos: Seq::empty(), parents: Seq::empty() };
            lemma_with_dependencies_unresolved(notes.dict, none, req.auto_add, 0, 0);
        },
        Err(_) => {},
    }
}

/// Whether `n` is the todo that the store has under the name of `n`, with
/// its own status, children and height aside, and is completed exactly if
/// that todo is.
pub open spec fn is_drawn_from(store: Seq<TodoView>, n: TodoView) -> bool {
    let j = find(store, n.name);
    &&& 0 <= j < store.len()
    &&& same_parts(n, store[j])
    &&& (n.status == Status::Completed <==> store[j].status == Status::Completed)
}

/// In a tree made without depth limit and with the newline for a
/// separator, the todos are as they are defined, every dependency names one
/// of them, and every todo below the root is drawn from them.
pub proof fn lemma_tree_nodes(req: Request)
    requires
        planted(req) is Ok,
        req.dpth_limit == 0,
        req.separator == seq![NEWLINE],
    ensures
        planted(req)->Ok_0.dict == gathered(req)->Ok_0.0,
        planted(req)->Ok_0.prelude == gathered(req)->Ok_0.2,
        distinct_names(planted(req)->Ok_0.dict),
        unresolved(planted(req)->Ok_0.dict),
        names_unmarked(planted(req)->Ok_0.dict),
        all_defined(planted(req)->Ok_0.dict),
        forall|k: int|
            0 <= k < below(planted(req)->Ok_0.root).len() ==> is_drawn_from(
                planted(req)->Ok_0.dict,
                #[trigger] below(planted(req)->Ok_0.root)[k],
            ),
{
    let tree = planted(req)->Ok_0;
    let (full, seed, prelude) = gathered(req)->Ok_0;
    let how = Reading {
        separator: req.separator,
        hide_comment: req.hide_comment,
        hide_owner: req.hide_owner,
    };
    let start = Notes { dict: Seq::<TodoView>::empty(), prelude: Seq::<Seq<u8>>::empty() };
    lemma_gathered_distinct(req);
    lemma_gathered_unresolved(req);
    lemma_read_all_sound(start, req.inputs, 0, how);
    let notes = read_all(start, req.inputs, 0, how)->Ok_0;
    lemma_with_stubs_sound(notes.dict, req.auto_add, how);
    lemma_with_stubs_defined(notes.dict, req.auto_add);
    assert(tree.dict == full);
    assert forall|j: int| 0 <= j < full.len() implies !is_marked((#[trigger] full[j]).name) by {
        assert(sound_todo(full[j], how));
        lemma_name_is_word(full[j].name);
    }
    let opts = Options { hide: req.hide_done, limit: req.dpth_limit, owners: req.owners };
    let st = Walk {
        visited: no_flags(full.len()),
        path: no_flags(full.len()),
        used: no_flags(req.owners.len()),
    };
    let (v, entered) = enter(seed, opts, st);
    assert(below(v.node) =~= Seq::<TodoView>::empty());
    lemma_walk_copies(full, opts, v, 0, entered, 0);
    let (w, _) = walk(full, opts, v, 0, entered, 0)->Ok_0;
    lemma_below_same(tree.root, w.node, 0);
    assert(below(tree.root) == below(w.node));
    law_tree_status_is_settled(req);
    let nodes = below(tree.root);
    assert forall|k: int| 0 <= k < nodes.len() implies is_drawn_from(full, #[trigger] nodes[k]) by {
        let n = nodes[k];
        assert(is_copy(full, n));
        let j = choose|j: int| 0 <= j < full.len() && same_parts(n, #[trigger] full[j]);
        lemma_find_own(full, j);
        assert(is_settled(full, n));
        let x = choose|x: int|
            0 <= x < full.len() && n.dependencies == (#[trigger] full[x]).dependencies && (n.name
                == full[x].name || n.name == full[x].name.push(SLASH)) && n.status
                == settled_status(full, full[x]) && !(full[x].status == Status::Completed
                && has_pending(full, full[x], full[x].dependencies.len() as int));
        assert(n.name.last() != SLASH);
        assert(full[x].name.push(SLASH).last() == SLASH);
        lemma_find_own(full, x);
        assert(x == j);
    }
}

/// Whether every dependency of every todo of the store is, as it stands,
/// the name of a todo of the store.
pub open spec fn is_closed(store: Seq<TodoView>) -> bool {
    forall|k: int, m: int|
        0 <= k < store.len() && 0 <= m < store[k].dependencies.len() ==> !is_marked(
            #[trigger] store[k].dependencies[m],
        ) && 0 <= find(store, store[k].dependencies[m]) < store.len()
}

/// A closed store needs no stubs.
pub proof fn lemma_closed_needs_no_stubs(store: Seq<TodoView>, auto_add: bool, i: int, j: int)
    requires
        is_closed(store),
        0 <= i,
        0 <= j,
    ensures
        with_dependencies(
            store,
            Stubs { todos: Seq::empty(), parents: Seq::empty() },
            auto_add,
            i,
            j,
        ) == Ok::<Stubs, crate::TodoErrorView>(
            Stubs { todos: Seq::empty(), parents: Seq::empty() },
        ),
    decreases store.len() - i, store[i].dependencies.len() - j,
{
    if i < store.len() {
        if j < store[i].dependencies.len() {
            let dep = store[i].dependencies[j];
            assert(!is_marked(dep));
            assert(bare_name(dep) == dep);
            lemma_closed_needs_no_stubs(store, auto_add, i, j + 1);
        } else {
            lemma_closed_needs_no_stubs(store, auto_add, i + 1, 0);
        }
    }
}

/// In a closed store every dependency names a todo, and adding stubs adds
/// nothing.
pub proof fn lemma_closed_with_stubs(store: Seq<TodoView>, auto_add: bool)
    requires
        is_closed(store),
    ensures
        with_stubs(store, auto_add) == Ok::<Seq<TodoView>, crate::TodoErrorView>(store),
        all_defined(store),
{
    lemma_closed_needs_no_stubs(store, auto_add, 0, 0);
    assert(store + Seq::<TodoView>::empty() =~= store);
    assert forall|k: int| 0 <= k < store.len() implies is_defined(store, #[trigger] store[k]) by {
        assert forall|m: int| 0 <= m < store[k].dependencies.len() implies 0 <= find(
            store,
            #[trigger] target(store[k], m),
        ) < store.len() by {
            assert(!is_marked(store[k].dependencies[m]));
        }
    }
}

/// The todos of a tree that leaves nothing out, read again, are closed and
/// hold what the todos of the tree hold; and the root depends on todos that
/// are among them.
pub proof fn lemma_rereads_closed(req: Request)
    requires
        planted(req) is Ok,
        req.dpth_limit == 0,
        req.separator == seq![NEWLINE],
        !req.hide_done,
        req.owners.len() == 0,
    ensures
        rereads(below(planted(req)->Ok_0.root)).len() > 0,
        is_closed(rereads(below(planted(req)->Ok_0.root))),
        holds_plain(planted(req)->Ok_0.dict, rereads(below(planted(req)->Ok_0.root))),
        gathered(req)->Ok_0.1.dependencies.len() > 0,
        is_defined(planted(req)->Ok_0.dict, gathered(req)->Ok_0.1),
        is_defined(rereads(below(planted(req)->Ok_0.root)), plain(gathered(req)->Ok_0.1)),
        names_unmarked(rereads(below(planted(req)->Ok_0.root))),
{
    let tree = planted(req)->Ok_0;
    let a = tree.dict;
    let root = gathered(req)->Ok_0.1;
    let nodes = below(tree.root);
    let b = rereads(nodes);
    let names = shown(tree.root);
    lemma_tree_nodes(req);
    law_tree_shows_all(req);
    lemma_shown_below(tree.root);
    assert forall|k: int| 0 <= k < nodes.len() implies names[k] == (#[trigger] nodes[k]).name
        && b[k].name == nodes[k].name by {
        assert(is_drawn_from(a, nodes[k]));
    }
    assert forall|k: int| 0 <= k < b.len() implies !is_marked((#[trigger] b[k]).name) by {
        assert(is_drawn_from(a, nodes[k]));
        assert(b[k].name == a[find(a, nodes[k].name)].name);
    }
    assert forall|x: Seq<u8>| names.contains(x) implies 0 <= find(b, x) < b.len() && 0 <= find(
        a,
        x,
    ) < a.len() && !is_marked(x) by {
        let k = choose|k: int| 0 <= k < names.len() && names[k] == x;
        assert(nodes[k].name == x);
        assert(b[k].name == x);
        lemma_found(b, x, k);
        assert(is_drawn_from(a, nodes[k]));
        lemma_find_from(a, x, 0);
    }
    assert forall|m: int| 0 <= m < root.dependencies.len() implies 0 <= find(
        a,
        #[trigger] target(root, m),
    ) < a.len() by {
        assert(names.contains(target(root, m)));
    }
    assert forall|m: int| 0 <= m < plain(root).dependencies.len() implies 0 <= find(
        b,
        #[trigger] target(plain(root), m),
    ) < b.len() by {
        assert(names.contains(target(root, m)));
        assert(target(plain(root), m) == target(root, m));
    }
    assert(names.contains(target(root, 0)));
    assert forall|k: int, m: int|
        0 <= k < b.len() && 0 <= m < b[k].dependencies.len() implies !is_marked(
        #[trigger] b[k].dependencies[m],
    ) && 0 <= find(b, b[k].dependencies[m]) < b.len() by {
        let n = nodes[k];
        assert(is_drawn_from(a, n));
        let j = find(a, n.name);
        assert(names[k] == a[j].name);
        assert(names.contains(a[j].name));
        assert(b[k].dependencies[m] == target(a[j], m));
        assert(names.contains(target(a[j], m)));
    }
    assert forall|name: Seq<u8>| 0 <= #[trigger] find(b, name) < b.len() implies 0 <= find(
        a,
        name,
    ) < a.len() && fresh(b[find(b, name)]) == plain(fresh(a[find(a, name)])) by {
        let k = find(b, name);
        lemma_find_from(b, name, 0);
        let n = nodes[k];
        assert(is_drawn_from(a, n));
        let j = find(a, name);
        let x = fresh(b[k]);
        let y = plain(fresh(a[j]));
        assert(x.children =~= y.children);
        assert(x.dependencies =~= y.dependencies);
        assert(a[j].status != Status::Actionable);
    }
}

/// Where no targets are given, a tree that leaves nothing out has below its
/// root the todos that no todo depends on, each under its name and in their
/// order, and every todo in it stands below a todo that depends on it.
pub proof fn lemma_root_children(req: Request)
    requires
        planted(req) is Ok,
        req.dpth_limit == 0,
        !req.hide_done,
        req.owners.len() == 0,
        req.targets.len() == 0,
        req.separator == seq![NEWLINE],
    ensures
        is_family(planted(req)->Ok_0.root),
        planted(req)->Ok_0.root.children.len() == gathered(req)->Ok_0.1.dependencies.len(),
        forall|q: int|
            0 <= q < planted(req)->Ok_0.root.children.len() ==> (
            #[trigger] planted(req)->Ok_0.root.children[q]).name
                == gathered(req)->Ok_0.1.dependencies[q] && !is_needed(
                planted(req)->Ok_0.dict,
                gathered(req)->Ok_0.1.dependencies[q],
            ),
{
    let tree = planted(req)->Ok_0;
    let (a, root, _) = gathered(req)->Ok_0;
    let how = Reading {
        separator: req.separator,
        hide_comment: req.hide_comment,
        hide_owner: req.hide_owner,
    };
    let start = Notes { dict: Seq::<TodoView>::empty(), prelude: Seq::<Seq<u8>>::empty() };
    let defined = read_all(start, req.inputs, 0, how)->Ok_0.dict;
    let none = Stubs { todos: Seq::empty(), parents: Seq::empty() };
    let stubs = with_dependencies(defined, none, req.auto_add, 0, 0)->Ok_0;
    lemma_tree_nodes(req);
    lemma_read_all_distinct(start, req.inputs, 0, how);
    lemma_tops(defined, 0);
    let tops = tops(defined);
    assert(root.dependencies == tops);
    assert(a == defined + stubs.todos);
    assert forall|x: Seq<u8>| #[trigger] is_needed(a, x) implies is_needed(defined, x) by {
        let (i, j) = choose|i: int, j: int|
            0 <= i < a.len() && 0 <= j < a[i].dependencies.len() && #[trigger] target(a[i], j) == x;
        if i < defined.len() {
            assert(a[i] == defined[i]);
            assert(target(defined[i], j) == x);
        } else {
            assert(a[i] == stubs.todos[i - defined.len()]);
            lemma_stub_needs_nothing(defined, none, req.auto_add, 0, 0, i - defined.len());
        }
    }
    assert forall|m: int| 0 <= m < tops.len() implies target(root, m) == #[trigger] tops[m]
        && !is_needed(a, tops[m]) by {
        let x = choose|x: int| 0 <= x < defined.len() && (#[trigger] defined[x]).name == tops[m];
        assert(a[x] == defined[x]);
        assert(!is_marked(a[x].name));
        assert(!is_needed(defined, tops[m]));
    }
    let opts = Options { hide: req.hide_done, limit: req.dpth_limit, owners: req.owners };
    let st = Walk {
        visited: no_flags(a.len()),
        path: no_flags(a.len()),
        used: no_flags(req.owners.len()),
    };
    let (v, entered) = enter(root, opts, st);
    assert(needs_tops(a, v.node)) by {
        assert forall|m: int| 0 <= m < v.node.dependencies.len() implies !is_needed(
            a,
            #[trigger] target(v.node, m),
        ) by {
            assert(target(root, m) == tops[m]);
        }
        assert forall|m: int, n: int| 0 <= m < n < v.node.dependencies.len() implies #[trigger] target(
            v.node,
            m,
        ) != #[trigger] target(v.node, n) by {
            assert(target(root, m) == tops[m]);
            assert(target(root, n) == tops[n]);
        }
    }
    assert(is_family(v.node));
    lemma_walk_adopts_tops(a, opts, v, 0, entered, 0);
    lemma_walk_kin(a, opts, v, 0, entered, 0);
    let (w, _) = walk(a, opts, v, 0, entered, 0)->Ok_0;
    assert(tree.root.children == w.node.children);
    assert(tree.root.dependencies == w.node.dependencies);
    assert(is_family(tree.root)) by {
        assert forall|k: int| 0 <= k < tree.root.children.len() implies names(
            tree.root,
            (#[trigger] tree.root.children[k]).name,
        ) && is_family(tree.root.children[k]) by {
            let x = w.node.children[k].name;
            assert(names(w.node, x));
            let m = choose|m: int|
                0 <= m < w.node.dependencies.len() && #[trigger] target(w.node, m) == x;
            assert(target(tree.root, m) == x);
        }
    }
    assert forall|q: int| 0 <= q < tree.root.children.len() implies (
    #[trigger] tree.root.children[q]).name == root.dependencies[q] && !is_needed(
        a,
        root.dependencies[q],
    ) by {
        assert(w.node.children[q].name == target(w.node, q));
        assert(target(w.node, q) == target(root, q));
        assert(target(root, q) == tops[q]);
    }
}

/// Where no targets are given, the todos of a tree that leaves nothing out,
/// read again, have the same todos that no todo depends on, in the same
/// order.
pub proof fn lemma_tops_again(req: Request)
    requires
        planted(req) is Ok,
        req.dpth_limit == 0,
        !req.hide_done,
        req.owners.len() == 0,
        req.targets.len() == 0,
        req.separator == seq![NEWLINE],
    ensures
        tops(rereads(below(planted(req)->Ok_0.root))) == gathered(req)->Ok_0.1.dependencies,
{
    let tree = planted(req)->Ok_0;
    let (a, root, _) = gathered(req)->Ok_0;
    let t = tree.root;
    let nodes = below(t);
    let b = rereads(nodes);
    lemma_tree_nodes(req);
    lemma_rereads_closed(req);
    lemma_root_children(req);
    lemma_shown_below(t);
    assert forall|k: int| 0 <= k < nodes.len() implies uncut((#[trigger] nodes[k]).name)
        == nodes[k].name by {
        assert(is_drawn_from(a, nodes[k]));
    }
    assert forall|x: Seq<u8>| #[trigger] is_needed(nodes, x) implies is_needed(b, x) by {
        let (i, j) = choose|i: int, j: int|
            0 <= i < nodes.len() && 0 <= j < nodes[i].dependencies.len() && #[trigger] target(
                nodes[i],
                j,
            ) == x;
        assert(b[i].dependencies[j] == x);
        assert(!is_marked(b[i].dependencies[j]));
        assert(target(b[i], j) == x);
    }
    assert forall|x: Seq<u8>| #[trigger] is_needed(b, x) implies is_needed(a, x) by {
        let (i, j) = choose|i: int, j: int|
            0 <= i < b.len() && 0 <= j < b[i].dependencies.len() && #[trigger] target(b[i], j) == x;
        assert(is_drawn_from(a, nodes[i]));
        let at = find(a, nodes[i].name);
        assert(!is_marked(b[i].dependencies[j]));
        assert(b[i].dependencies[j] == target(a[at], j));
    }
    assert forall|q: int| 0 <= q < t.children.len() implies !is_needed(
        b,
        uncut((#[trigger] t.children[q]).name),
    ) by {
        lemma_below_holds(t, 0, q);
        let at = choose|at: int| 0 <= at < nodes.len() && nodes[at] == t.children[q];
        assert(uncut(nodes[at].name) == nodes[at].name);
        assert(!is_needed(a, root.dependencies[q]));
    }
    assert forall|q: int, j: int|
        0 <= q < t.children.len() && 0 <= j < shown(t.children[q]).len() implies is_needed(
        b,
        #[trigger] shown(t.children[q])[j],
    ) by {
        let c = t.children[q];
        lemma_below_holds(t, 0, q);
        lemma_shown_below(c);
        assert(names(t, c.name) && is_family(c));
        lemma_family_needed(nodes, c, 0);
        let n = below(c)[j];
        assert(nodes.contains(n));
        let at = choose|at: int| 0 <= at < nodes.len() && nodes[at] == n;
        assert(uncut(nodes[at].name) == nodes[at].name);
        assert(shown(c)[j] == n.name);
        assert(names(c, n.name) || is_needed(nodes, n.name));
        if names(c, n.name) {
            let m = choose|m: int|
                0 <= m < c.dependencies.len() && #[trigger] target(c, m) == n.name;
            let ac = choose|ac: int| 0 <= ac < nodes.len() && nodes[ac] == c;
            assert(target(nodes[ac], m) == n.name);
        }
        assert(is_needed(nodes, n.name));
    }
    lemma_unneeded_shown(b, t, 0);
    lemma_tops_unneeded(b, 0);
    assert(names_of(b) =~= shown(t));
    assert(child_names(t, 0) =~= root.dependencies) by {
        assert forall|q: int| 0 <= q < t.children.len() implies child_names(t, 0)[q]
            == root.dependencies[q] by {
            lemma_below_holds(t, 0, q);
            let at = choose|at: int| 0 <= at < nodes.len() && nodes[at] == t.children[q];
            assert(uncut(nodes[at].name) == nodes[at].name);
            assert(t.children[q].name == root.dependencies[q]);
        }
    }
}

/// The request for a tree from the text that the tree of `req` renders: the
/// text is the only file, `targets` are the targets, and the rest is asked
/// as before.
pub open spec fn asked_for(req: Request, targets: Seq<Seq<u8>>) -> Request {
    Request { inputs: seq![planted(req)->Ok_0.rendered()], targets, ..req }
}

/// Whether a tree is the tree `first` made again from its todos as they are
/// drawn: the same tree, markers of dependencies aside, with the todos below
/// the root for its todos.
pub open spec fn is_regrown(first: TreeView, second: TreeView) -> bool {
    &&& plain(second.root) == plain(first.root)
    &&& second.dict == rereads(below(first.root))
    &&& second == (TreeView { root: second.root, dict: second.dict, ..first })
}

/// The tree made from what a tree renders, for targets that make the root
/// depend on the names on which the root of the tree depends, is the same
/// tree.
#[verifier::rlimit(40)]
pub proof fn lemma_grows_again(req: Request, targets: Seq<Seq<u8>>)
    requires
        planted(req) is Ok,
        planted(req)->Ok_0.format == Format::Md,
        req.dpth_limit == 0,
        !req.hide_done,
        req.owners.len() == 0,
        req.separator == seq![NEWLINE],
        forall|j: int|
            0 <= j < planted(req)->Ok_0.dict.len() ==> is_tidy(
                (#[trigger] planted(req)->Ok_0.dict[j]).owner,
            ),
        escaped(planted(req)->Ok_0.rendered()) == planted(req)->Ok_0.rendered(),
        unmarked(seed(targets, rereads(below(planted(req)->Ok_0.root))).dependencies) == unmarked(
            gathered(req)->Ok_0.1.dependencies,
        ),
    ensures
        planted(asked_for(req, targets)) is Ok,
        is_regrown(planted(req)->Ok_0, planted(asked_for(req, targets))->Ok_0),
{
    let tree = planted(req)->Ok_0;
    let (a, root, _) = gathered(req)->Ok_0;
    let b = rereads(below(tree.root));
    let again = asked_for(req, targets);
    let how = Reading {
        separator: req.separator,
        hide_comment: req.hide_comment,
        hide_owner: req.hide_owner,
    };
    let start = Notes { dict: Seq::<TodoView>::empty(), prelude: Seq::<Seq<u8>>::empty() };
    law_files_round_trip(req);
    lemma_tree_nodes(req);
    lemma_rereads_closed(req);
    lemma_closed_with_stubs(b, req.auto_add);
    let notes = Notes { dict: b, prelude: tree.prelude };
    assert(read_all(start, again.inputs, 0, how) == Ok::<Notes, crate::TodoErrorView>(notes)) by {
        assert(read(start, again.inputs[0], how) == Ok::<Notes, crate::TodoErrorView>(notes));
        assert(read_all(notes, again.inputs, 1, how) == Ok::<Notes, crate::TodoErrorView>(notes));
    }
    let second = seed(targets, b);
    assert(second.dependencies.len() == unmarked(second.dependencies).len());
    assert(root.dependencies.len() == unmarked(root.dependencies).len());
    assert(targets.len() == 0 ==> tops(b).len() > 0);
    assert(plain(second) == plain(root)) by {
        assert(plain(second).children =~= plain(root).children);
    }
    assert(gathered(again) == Ok::<(Seq<TodoView>, TodoView, Seq<Seq<u8>>), crate::TodoErrorView>(
        (b, second, tree.prelude),
    ));
    let opts = Options { hide: req.hide_done, limit: req.dpth_limit, owners: req.owners };
    let sa = Walk {
        visited: no_flags(a.len()),
        path: no_flags(a.len()),
        used: no_flags(req.owners.len()),
    };
    let sb = Walk {
        visited: no_flags(b.len()),
        path: no_flags(b.len()),
        used: no_flags(req.owners.len()),
    };
    let width = if req.term_width == 0 {
        DEFAULT_WIDTH as nat
    } else {
        req.term_width
    };
    let none = Extent { name: 0, owner: 0, comment: 0 };
    assert(same_flags(a, b, sa, sb)) by {
        assert forall|name: Seq<u8>| 0 <= #[trigger] find(b, name) < b.len() implies sb.visited[find(
            b,
            name,
        )] == sa.visited[find(a, name)] && sb.path[find(b, name)] == sa.path[find(a, name)] by {
            lemma_find_from(a, name, 0);
        }
    }
    law_building_by_names(a, b, opts, root, sa, sb, 0, none, width);
    assert(holds_plain(b, b)) by {
        assert forall|name: Seq<u8>| 0 <= #[trigger] find(b, name) < b.len() implies fresh(
            b[find(b, name)],
        ) == plain(fresh(b[find(b, name)])) by {
            let k = find(b, name);
            let x = fresh(b[k]);
            let y = plain(x);
            assert forall|m: int| 0 <= m < x.dependencies.len() implies x.dependencies[m]
                == y.dependencies[m] by {
                assert(!is_marked(b[k].dependencies[m]));
            }
            assert(x.dependencies =~= y.dependencies);
            assert(x.children =~= y.children);
        }
    }
    assert(is_defined(b, second)) by {
        assert forall|m: int| 0 <= m < second.dependencies.len() implies 0 <= find(
            b,
            #[trigger] target(second, m),
        ) < b.len() by {
            assert(unmarked(second.dependencies)[m] == unmarked(root.dependencies)[m]);
            assert(target(second, m) == target(root, m));
            lemma_plain_targets(a, root, m);
            assert(target(plain(root), m) == target(root, m));
        }
    }
    law_building_by_names(b, b, opts, second, sb, sb, 0, none, width);
}

/// Markdown round trip: the tree made from what a tree renders.
///
/// Let [`crate::tree::Tree::new`] make a tree in the markdown format from
/// files, with nothing left out and the newline for a separator, and let the
/// owner of every todo be tidy. If rendering the tree gives a text in which
/// resolving escapes changes nothing, then the tree made from that text,
/// all else asked as before, is the same tree, markers of dependencies
/// aside: every todo has its name, owner, comment, following lines, status
/// and place, and depends on the same names. Its todos are those of the
/// first tree in the order in which they are drawn.
pub proof fn law_tree_grows_again(req: Request)
    requires
        planted(req) is Ok,
        planted(req)->Ok_0.format == Format::Md,
        req.dpth_limit == 0,
        !req.hide_done,
        req.owners.len() == 0,
        req.separator == seq![NEWLINE],
        forall|j: int|
            0 <= j < planted(req)->Ok_0.dict.len() ==> is_tidy(
                (#[trigger] planted(req)->Ok_0.dict[j]).owner,
            ),
        escaped(planted(req)->Ok_0.rendered()) == planted(req)->Ok_0.rendered(),
    ensures
        planted(asked_for(req, req.targets)) is Ok,
        is_regrown(planted(req)->Ok_0, planted(asked_for(req, req.targets))->Ok_0),
{
    if req.targets.len() == 0 {
        lemma_tops_again(req);
    }
    lemma_grows_again(req, req.targets);
}

} // verus!
