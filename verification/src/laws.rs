//! What holds of the library as a whole, each law stated over the
//! definitions that the contracts use and proved from them.
use crate::{Format, Status, TodoErrorView};
use crate::assemble::{is_needed, target, tops_from, with_dependencies, with_dependency, Stubs};
use crate::grammar::{
    blank_draft, comment_mark, dependency_mark, filed, header_mark, left_by_line, owner_mark, read,
    read_all, read_line, read_lines, DraftView, Notes, Reading,
};
use crate::render::rendered;
use crate::resolve::{
    adopt, enter, find, find_from, fresh, in_scope, leave, lemma_unvisited_update, resolved,
    unvisited, walk, Options, Visit, Walk,
};
use crate::text::{trimmed, words, SLASH};
use crate::todo::{
    bare_name, below, distinct_names, lemma_below_push, lemma_below_same, name_fault, root_name,
    TodoView,
};
use crate::tree::{gathered, grown, planted, Request, TreeView};
use vstd::prelude::*;

verus! {

/// Whether two todos are the same as far as their definitions go: all but
/// the children and the height.
pub open spec fn same_definition(a: TodoView, b: TodoView) -> bool {
    &&& a.name == b.name
    &&& a.owner == b.owner
    &&& a.comment == b.comment
    &&& a.dependencies == b.dependencies
    &&& a.auxilaries == b.auxilaries
    &&& a.status == b.status
}

/// `find_from` stays within the store, stops at a todo of that name, and
/// passes none.
pub proof fn lemma_find_from(store: Seq<TodoView>, name: Seq<u8>, i: int)
    requires
        0 <= i <= store.len(),
    ensures
        i <= find_from(store, name, i) <= store.len(),
        find_from(store, name, i) < store.len() ==> store[find_from(store, name, i)].name == name,
        forall|k: int| i <= k < find_from(store, name, i) ==> store[k].name != name,
    decreases store.len() - i,
{
    if i < store.len() && store[i].name != name {
        lemma_find_from(store, name, i + 1);
    }
}

/// The walk through the dependencies of a todo leaves the definition of the
/// todo as it is, is inside of the same todos afterwards as before, and
/// only ever adds to the todos visited.
pub proof fn lemma_walk_visits(
    store: Seq<TodoView>,
    opts: Options,
    v: Visit,
    i: int,
    st: Walk,
    depth: nat,
)
    requires
        st.visited.len() == store.len(),
        st.path.len() == store.len(),
    ensures
        match walk(store, opts, v, i, st, depth) {
            Ok((w, after)) => {
                &&& after.visited.len() == store.len()
                &&& after.path == st.path
                &&& after.used.len() == st.used.len()
                &&& forall|j: int| 0 <= j < store.len() && st.visited[j] ==> after.visited[j]
                &&& unvisited(after.visited) <= unvisited(st.visited)
                &&& same_definition(w.node, v.node)
            },
            Err(_) => true,
        },
    decreases unvisited(st.visited), v.node.dependencies.len() - i,
{
    if 0 <= i < v.node.dependencies.len() {
        let name = bare_name(v.node.dependencies[i]);
        let d = find(store, name);
        lemma_find_from(store, name, 0);
        if d < store.len() && !st.path[d] {
            let pending = store[d].status != Status::Completed;
            let seen = Visit {
                pending: if pending {
                    v.pending.push(name)
                } else {
                    v.pending
                },
                ..v
            };
            if in_scope(opts.limit, depth) && !st.visited[d] {
                let inside = Walk {
                    visited: st.visited.update(d, true),
                    path: st.path.update(d, true),
                    ..st
                };
                let (c, entered) = enter(fresh(store[d]), opts, inside);
                lemma_unvisited_update(st.visited, d);
                lemma_walk_visits(store, opts, c, 0, entered, depth + 1);
                match walk(store, opts, c, 0, entered, depth + 1) {
                    Ok((c2, after)) => {
                        match leave(opts, c2, depth + 1) {
                            Ok(child) => {
                                let next = Walk { path: after.path.update(d, false), ..after };
                                assert(next.path =~= st.path);
                                lemma_walk_visits(
                                    store,
                                    opts,
                                    adopt(opts, seen, child, c2.owned, pending),
                                    i + 1,
                                    next,
                                    depth,
                                );
                            },
                            Err(_) => {},
                        }
                    },
                    Err(_) => {},
                }
            } else {
                lemma_walk_visits(store, opts, seen, i + 1, st, depth);
            }
        }
    }
}

/// A name without the `/` that marks a cut.
pub open spec fn uncut(name: Seq<u8>) -> Seq<u8> {
    if name.len() > 0 && name.last() == SLASH {
        name.drop_last()
    } else {
        name
    }
}

/// The names of the todos below `t` in the tree, in the order in which they
/// are drawn, cut marks aside.
pub open spec fn shown(t: TodoView) -> Seq<Seq<u8>>
    decreases t, t.children.len() + 1,
{
    shown_from(t, 0)
}

/// The names of the todos at and below the children of `t` from the `k`-th
/// on.
pub open spec fn shown_from(t: TodoView, k: int) -> Seq<Seq<u8>>
    decreases t, t.children.len() - k,
{
    if k < 0 || k >= t.children.len() {
        Seq::empty()
    } else {
        seq![uncut(t.children[k].name)] + shown(t.children[k]) + shown_from(t, k + 1)
    }
}

/// Whether `name` is the name of a todo that was visited between `before`
/// and `after`.
pub open spec fn visited_between(
    store: Seq<TodoView>,
    name: Seq<u8>,
    before: Seq<bool>,
    after: Seq<bool>,
) -> bool {
    let j = find(store, name);
    0 <= j < store.len() && !before[j] && after[j]
}

/// Whether the todos below `t` are shown once each, and are todos visited
/// between `before` and `after`.
pub open spec fn shown_once(
    store: Seq<TodoView>,
    t: TodoView,
    before: Seq<bool>,
    after: Seq<bool>,
) -> bool {
    &&& shown(t).no_duplicates()
    &&& forall|k: int|
        0 <= k < shown(t).len() ==> visited_between(store, #[trigger] shown(t)[k], before, after)
}

/// In a store of distinct names, a todo is found under its name.
pub proof fn lemma_find_own(store: Seq<TodoView>, j: int)
    requires
        distinct_names(store),
        0 <= j < store.len(),
    ensures
        find(store, store[j].name) == j,
{
    lemma_find_from(store, store[j].name, 0);
}

/// The todos below `t` once a child is attached behind the others.
pub proof fn lemma_shown_push(t: TodoView, child: TodoView, k: int)
    requires
        0 <= k <= t.children.len(),
    ensures
        shown_from(TodoView { children: t.children.push(child), ..t }, k) == shown_from(t, k)
            + seq![uncut(child.name)] + shown(child),
    decreases t.children.len() - k,
{
    let grown = TodoView { children: t.children.push(child), ..t };
    if k < t.children.len() {
        lemma_shown_push(t, child, k + 1);
        assert(grown.children[k] == t.children[k]);
        assert(seq![uncut(t.children[k].name)] + shown(t.children[k]) + (shown_from(t, k + 1)
            + seq![uncut(child.name)] + shown(child)) =~= (seq![uncut(t.children[k].name)]
            + shown(t.children[k]) + shown_from(t, k + 1)) + seq![uncut(child.name)] + shown(
            child,
        ));
    } else {
        assert(grown.children[k] == child);
        assert(shown_from(grown, k + 1) =~= Seq::<Seq<u8>>::empty());
        assert(shown_from(t, k) =~= Seq::<Seq<u8>>::empty());
        assert(seq![uncut(child.name)] + shown(child) + Seq::<Seq<u8>>::empty() =~= Seq::<
            Seq<u8>,
        >::empty() + seq![uncut(child.name)] + shown(child));
    }
}

/// The todos below a todo depend on its children alone.
pub proof fn lemma_shown_same(a: TodoView, b: TodoView, k: int)
    requires
        a.children == b.children,
    ensures
        shown_from(a, k) == shown_from(b, k),
    decreases a.children.len() - k,
{
    if 0 <= k < a.children.len() {
        lemma_shown_same(a, b, k + 1);
    }
}

/// While the walk goes through the dependencies of a todo, the todos below
/// it stay shown once each.
pub proof fn lemma_walk_shows_once(
    store: Seq<TodoView>,
    opts: Options,
    v: Visit,
    i: int,
    st: Walk,
    depth: nat,
    base: Seq<bool>,
)
    requires
        distinct_names(store),
        st.visited.len() == store.len(),
        st.path.len() == store.len(),
        base.len() == store.len(),
        forall|j: int| 0 <= j < store.len() && base[j] ==> st.visited[j],
        shown_once(store, v.node, base, st.visited),
    ensures
        match walk(store, opts, v, i, st, depth) {
            Ok((w, after)) => shown_once(store, w.node, base, after.visited),
            Err(_) => true,
        },
    decreases unvisited(st.visited), v.node.dependencies.len() - i,
{
    if 0 <= i < v.node.dependencies.len() {
        let name = bare_name(v.node.dependencies[i]);
        let d = find(store, name);
        lemma_find_from(store, name, 0);
        if d < store.len() && !st.path[d] {
            let pending = store[d].status != Status::Completed;
            let seen = Visit {
                pending: if pending {
                    v.pending.push(name)
                } else {
                    v.pending
                },
                ..v
            };
            if in_scope(opts.limit, depth) && !st.visited[d] {
                let inside = Walk {
                    visited: st.visited.update(d, true),
                    path: st.path.update(d, true),
                    ..st
                };
                let (c, entered) = enter(fresh(store[d]), opts, inside);
                lemma_unvisited_update(st.visited, d);
                lemma_walk_visits(store, opts, c, 0, entered, depth + 1);
                assert(shown(c.node) =~= Seq::<Seq<u8>>::empty());
                lemma_walk_shows_once(store, opts, c, 0, entered, depth + 1, inside.visited);
                match walk(store, opts, c, 0, entered, depth + 1) {
                    Ok((c2, after)) => {
                        match leave(opts, c2, depth + 1) {
                            Ok(child) => {
                                let next = Walk { path: after.path.update(d, false), ..after };
                                let grown = adopt(opts, seen, child, c2.owned, pending);
                                lemma_find_own(store, d);
                                lemma_shown_same(child, c2.node, 0);
                                assert(uncut(child.name) == store[d].name);
                                if grown.node.children.len() > v.node.children.len() {
                                    lemma_shown_push(v.node, child, 0);
                                    lemma_shown_same(
                                        grown.node,
                                        TodoView {
                                            children: v.node.children.push(child),
                                            ..v.node
                                        },
                                        0,
                                    );
                                    let old = shown(v.node);
                                    let sub = shown(child);
                                    let all = shown(grown.node);
                                    assert(all == old + seq![store[d].name] + sub);
                                    assert forall|k: int| 0 <= k < all.len() implies visited_between(
                                        store,
                                        #[trigger] all[k],
                                        base,
                                        after.visited,
                                    ) by {
                                        if k < old.len() {
                                            assert(visited_between(
                                                store,
                                                old[k],
                                                base,
                                                st.visited,
                                            ));
                                        } else if k > old.len() {
                                            assert(visited_between(
                                                store,
                                                sub[k - old.len() - 1],
                                                inside.visited,
                                                after.visited,
                                            ));
                                        }
                                    }
                                    assert forall|a: int, b: int|
                                        0 <= a < all.len() && 0 <= b < all.len() && a
                                            != b implies all[a] != all[b] by {
                                        let (lo, hi) = if a < b {
                                            (a, b)
                                        } else {
                                            (b, a)
                                        };
                                        if hi < old.len() {
                                        } else if lo < old.len() {
                                            assert(visited_between(
                                                store,
                                                old[lo],
                                                base,
                                                st.visited,
                                            ));
                                            if hi > old.len() {
                                                assert(visited_between(
                                                    store,
                                                    sub[hi - old.len() - 1],
                                                    inside.visited,
                                                    after.visited,
                                                ));
                                            }
                                        } else if lo == old.len() {
                                            assert(visited_between(
                                                store,
                                                sub[hi - old.len() - 1],
                                                inside.visited,
                                                after.visited,
                                            ));
                                        } else {
                                            assert(sub[lo - old.len() - 1] != sub[hi - old.len()
                                                - 1]);
                                        }
                                    }
                                } else {
                                    lemma_shown_same(grown.node, v.node, 0);
                                    assert forall|k: int|
                                        0 <= k < shown(grown.node).len() implies visited_between(
                                        store,
                                        #[trigger] shown(grown.node)[k],
                                        base,
                                        after.visited,
                                    ) by {
                                        assert(visited_between(
                                            store,
                                            shown(v.node)[k],
                                            base,
                                            st.visited,
                                        ));
                                    }
                                }
                                lemma_walk_shows_once(store, opts, grown, i + 1, next, depth, base);
                            },
                            Err(_) => {},
                        }
                    },
                    Err(_) => {},
                }
            } else {
                lemma_shown_same(seen.node, v.node, 0);
                lemma_walk_shows_once(store, opts, seen, i + 1, st, depth, base);
            }
        }
    }
}

/// No todo is shown twice.
///
/// When the tree below a todo without children is resolved from a store of
/// distinct names, no name occurs twice among the todos below it, cut marks
/// aside, and each is the name of a todo that the walk visited. A todo that
/// several todos depend on is therefore shown once, and by the order of the
/// walk below the first that reaches it.
pub proof fn law_shown_once(
    store: Seq<TodoView>,
    opts: Options,
    t: TodoView,
    st: Walk,
    depth: nat,
)
    requires
        distinct_names(store),
        st.visited.len() == store.len(),
        st.path.len() == store.len(),
        t.children.len() == 0,
    ensures
        match resolved(store, opts, t, st, depth) {
            Ok((node, _, after)) => shown_once(store, node, st.visited, after.visited),
            Err(_) => true,
        },
{
    let (v, entered) = enter(t, opts, st);
    assert(shown(v.node) =~= Seq::<Seq<u8>>::empty());
    lemma_walk_shows_once(store, opts, v, 0, entered, depth, st.visited);
    match walk(store, opts, v, 0, entered, depth) {
        Ok((w, after)) => {
            match leave(opts, w, depth) {
                Ok(node) => {
                    lemma_shown_same(node, w.node, 0);
                },
                Err(_) => {},
            }
        },
        Err(_) => {},
    }
}

/// Whether nothing is asked to be left out of the tree.
pub open spec fn unpruned(opts: Options) -> bool {
    !opts.hide && opts.limit == 0 && opts.owners.len() == 0
}

/// Whether the first `upto` dependencies of `t` name todos of the store that
/// are visited.
pub open spec fn needs_visited(
    store: Seq<TodoView>,
    t: TodoView,
    upto: int,
    visited: Seq<bool>,
) -> bool {
    forall|m: int|
        0 <= m < upto && m < t.dependencies.len() ==> 0 <= find(store, #[trigger] target(t, m))
            < store.len() && visited[find(store, target(t, m))]
}

/// Whether every todo visited between `before` and `after` is shown below
/// `t`, and all that it depends on is visited.
pub open spec fn shows_all(
    store: Seq<TodoView>,
    t: TodoView,
    before: Seq<bool>,
    after: Seq<bool>,
) -> bool {
    forall|j: int|
        0 <= j < store.len() && !before[j] && after[j] ==> shown(t).contains(
            (#[trigger] store[j]).name,
        ) && needs_visited(store, store[j], store[j].dependencies.len() as int, after)
}

/// Dependencies that are visited stay visited, whichever todo of the same
/// dependencies they are read from.
pub proof fn lemma_needs_stay_visited(
    store: Seq<TodoView>,
    a: TodoView,
    b: TodoView,
    upto: int,
    before: Seq<bool>,
    after: Seq<bool>,
)
    requires
        a.dependencies == b.dependencies,
        before.len() == store.len(),
        after.len() == store.len(),
        forall|j: int| 0 <= j < store.len() && before[j] ==> after[j],
        needs_visited(store, a, upto, before),
    ensures
        needs_visited(store, b, upto, after),
{
    assert forall|m: int| 0 <= m < upto && m < b.dependencies.len() implies 0 <= find(
        store,
        #[trigger] target(b, m),
    ) < store.len() && after[find(store, target(b, m))] by {
        assert(target(a, m) == target(b, m));
    }
}

/// While an unpruned walk goes through the dependencies of a todo, every
/// todo visited is shown below it and has its dependencies visited.
pub proof fn lemma_walk_shows_all(
    store: Seq<TodoView>,
    opts: Options,
    v: Visit,
    i: int,
    st: Walk,
    depth: nat,
    base: Seq<bool>,
)
    requires
        unpruned(opts),
        distinct_names(store),
        st.visited.len() == store.len(),
        st.path.len() == store.len(),
        base.len() == store.len(),
        forall|j: int| 0 <= j < store.len() && base[j] ==> st.visited[j],
        0 <= i,
        v.owned,
        shows_all(store, v.node, base, st.visited),
        needs_visited(store, v.node, i, st.visited),
    ensures
        match walk(store, opts, v, i, st, depth) {
            Ok((w, after)) => {
                &&& w.owned
                &&& shows_all(store, w.node, base, after.visited)
                &&& needs_visited(store, w.node, w.node.dependencies.len() as int, after.visited)
            },
            Err(_) => true,
        },
    decreases unvisited(st.visited), v.node.dependencies.len() - i,
{
    if i < v.node.dependencies.len() {
        let name = bare_name(v.node.dependencies[i]);
        let d = find(store, name);
        lemma_find_from(store, name, 0);
        if d < store.len() && !st.path[d] {
            let pending = store[d].status != Status::Completed;
            let seen = Visit {
                pending: if pending {
                    v.pending.push(name)
                } else {
                    v.pending
                },
                ..v
            };
            assert(target(v.node, i) == name);
            if !st.visited[d] {
                let inside = Walk {
                    visited: st.visited.update(d, true),
                    path: st.path.update(d, true),
                    ..st
                };
                let (c, entered) = enter(fresh(store[d]), opts, inside);
                lemma_unvisited_update(st.visited, d);
                lemma_walk_visits(store, opts, c, 0, entered, depth + 1);
                lemma_walk_shows_all(store, opts, c, 0, entered, depth + 1, inside.visited);
                match walk(store, opts, c, 0, entered, depth + 1) {
                    Ok((c2, after)) => {
                        match leave(opts, c2, depth + 1) {
                            Ok(child) => {
                                let next = Walk { path: after.path.update(d, false), ..after };
                                let grown = adopt(opts, seen, child, c2.owned, pending);
                                lemma_find_own(store, d);
                                lemma_shown_same(child, c2.node, 0);
                                assert(uncut(child.name) == store[d].name);
                                lemma_shown_push(v.node, child, 0);
                                lemma_shown_same(
                                    grown.node,
                                    TodoView { children: v.node.children.push(child), ..v.node },
                                    0,
                                );
                                let old = shown(v.node);
                                let sub = shown(child);
                                let all = shown(grown.node);
                                assert(all == old + seq![store[d].name] + sub);
                                assert forall|j: int|
                                    0 <= j < store.len() && !base[j]
                                        && after.visited[j] implies all.contains(
                                    (#[trigger] store[j]).name,
                                ) && needs_visited(
                                    store,
                                    store[j],
                                    store[j].dependencies.len() as int,
                                    after.visited,
                                ) by {
                                    if st.visited[j] {
                                        let k = choose|k: int|
                                            0 <= k < old.len() && old[k] == store[j].name;
                                        assert(all[k] == store[j].name);
                                        lemma_needs_stay_visited(
                                            store,
                                            store[j],
                                            store[j],
                                            store[j].dependencies.len() as int,
                                            st.visited,
                                            after.visited,
                                        );
                                    } else if j == d {
                                        assert(all[old.len() as int] == store[j].name);
                                        lemma_needs_stay_visited(
                                            store,
                                            c2.node,
                                            store[d],
                                            store[d].dependencies.len() as int,
                                            after.visited,
                                            after.visited,
                                        );
                                    } else {
                                        assert(shown(c2.node).contains(store[j].name));
                                        let k = choose|k: int|
                                            0 <= k < sub.len() && sub[k] == store[j].name;
                                        assert(all[old.len() + 1 + k] == store[j].name);
                                    }
                                }
                                lemma_needs_stay_visited(
                                    store,
                                    v.node,
                                    grown.node,
                                    i,
                                    st.visited,
                                    after.visited,
                                );
                                assert(needs_visited(store, grown.node, i + 1, next.visited)) by {
                                    assert(target(grown.node, i) == name);
                                }
                                lemma_walk_shows_all(store, opts, grown, i + 1, next, depth, base);
                            },
                            Err(_) => {},
                        }
                    },
                    Err(_) => {},
                }
            } else {
                lemma_shown_same(seen.node, v.node, 0);
                lemma_needs_stay_visited(store, v.node, seen.node, i, st.visited, st.visited);
                assert(needs_visited(store, seen.node, i + 1, st.visited)) by {
                    assert(target(seen.node, i) == name);
                }
                lemma_walk_shows_all(store, opts, seen, i + 1, st, depth, base);
            }
        }
    }
}

/// No todo is left out.
///
/// When nothing is asked to be left out and nothing was visited before, the
/// tree resolved below a todo shows everything that the todo depends on, and
/// everything that a todo shown depends on. With [`law_shown_once`], each is
/// shown exactly once.
pub proof fn law_shown_all(store: Seq<TodoView>, opts: Options, t: TodoView, st: Walk, depth: nat)
    requires
        unpruned(opts),
        distinct_names(store),
        st.visited.len() == store.len(),
        st.path.len() == store.len(),
        forall|j: int| 0 <= j < store.len() ==> !st.visited[j],
        t.children.len() == 0,
    ensures
        match resolved(store, opts, t, st, depth) {
            Ok((node, _, _)) => {
                &&& forall|m: int|
                    0 <= m < t.dependencies.len() ==> shown(node).contains(
                        #[trigger] target(t, m),
                    )
                &&& forall|j: int, m: int|
                    0 <= j < store.len() && shown(node).contains(store[j].name) && 0 <= m
                        < store[j].dependencies.len() ==> shown(node).contains(
                        #[trigger] target(store[j], m),
                    )
            },
            Err(_) => true,
        },
{
    let (v, entered) = enter(t, opts, st);
    assert(shown(v.node) =~= Seq::<Seq<u8>>::empty());
    lemma_walk_visits(store, opts, v, 0, entered, depth);
    lemma_walk_shows_all(store, opts, v, 0, entered, depth, st.visited);
    lemma_walk_shows_once(store, opts, v, 0, entered, depth, st.visited);
    match walk(store, opts, v, 0, entered, depth) {
        Ok((w, after)) => {
            match leave(opts, w, depth) {
                Ok(node) => {
                    lemma_shown_same(node, w.node, 0);
                    assert forall|m: int| 0 <= m < t.dependencies.len() implies shown(
                        node,
                    ).contains(#[trigger] target(t, m)) by {
                        assert(target(w.node, m) == target(t, m));
                        let d = find(store, target(w.node, m));
                        lemma_find_from(store, target(t, m), 0);
                        assert(shown(w.node).contains(store[d].name));
                    }
                    assert forall|j: int, m: int|
                        0 <= j < store.len() && shown(node).contains(store[j].name) && 0 <= m
                            < store[j].dependencies.len() implies shown(node).contains(
                        #[trigger] target(store[j], m),
                    ) by {
                        let k = choose|k: int|
                            0 <= k < shown(w.node).len() && shown(w.node)[k] == store[j].name;
                        assert(visited_between(store, shown(w.node)[k], st.visited, after.visited));
                        lemma_find_own(store, j);
                        let d = find(store, target(store[j], m));
                        lemma_find_from(store, target(store[j], m), 0);
                        assert(shown(w.node).contains(store[d].name));
                    }
                },
                Err(_) => {},
            }
        },
        Err(_) => {},
    }
}

/// Whether a draft has no header yet, or one that names neither nothing nor
/// the root.
pub open spec fn headed(draft: DraftView) -> bool {
    draft.name.len() == 0 || (bare_name(draft.name).len() > 0 && bare_name(draft.name)
        != root_name())
}

/// Filing a draft keeps the names of the todos distinct.
pub proof fn lemma_filed_distinct(notes: Notes, draft: DraftView, separator: Seq<u8>)
    requires
        distinct_names(notes.dict),
        headed(draft),
    ensures
        match filed(notes, draft, separator) {
            Ok(after) => distinct_names(after.dict),
            Err(_) => true,
        },
{
    match filed(notes, draft, separator) {
        Ok(after) => {
            if draft.name.len() > 0 {
                let name = bare_name(draft.name);
                lemma_find_from(notes.dict, name, 0);
                assert(name_fault(name) is None);
                assert(after.dict == notes.dict.push(after.dict.last()));
                assert(after.dict.last().name == name);
            }
        },
        Err(_) => {},
    }
}

/// Reading a line keeps the names of the todos distinct.
pub proof fn lemma_read_line_distinct(notes: Notes, draft: DraftView, line: Seq<u8>, how: Reading)
    requires
        distinct_names(notes.dict),
        headed(draft),
    ensures
        match read_line(notes, draft, line, how) {
            Ok((after, next)) => distinct_names(after.dict) && headed(next),
            Err(_) => true,
        },
{
    reveal(read_line);
    lemma_filed_distinct(notes, draft, how.separator);
}

/// Reading lines keeps the names of the todos distinct.
pub proof fn lemma_read_lines_distinct(
    notes: Notes,
    draft: DraftView,
    text: Seq<Seq<u8>>,
    i: int,
    how: Reading,
)
    requires
        distinct_names(notes.dict),
        headed(draft),
    ensures
        match read_lines(notes, draft, text, i, how) {
            Ok(after) => distinct_names(after.dict),
            Err(_) => true,
        },
    decreases text.len() - i,
{
    if 0 <= i < text.len() {
        lemma_read_line_distinct(notes, draft, text[i], how);
        match read_line(notes, draft, text[i], how) {
            Ok((after, next)) => {
                lemma_read_lines_distinct(after, next, text, i + 1, how);
            },
            Err(_) => {},
        }
    } else {
        lemma_filed_distinct(notes, draft, how.separator);
    }
}

/// Reading files keeps the names of the todos distinct.
pub proof fn lemma_read_all_distinct(notes: Notes, inputs: Seq<Seq<u8>>, k: int, how: Reading)
    requires
        distinct_names(notes.dict),
    ensures
        match read_all(notes, inputs, k, how) {
            Ok(after) => distinct_names(after.dict),
            Err(_) => true,
        },
    decreases inputs.len() - k,
{
    if 0 <= k < inputs.len() {
        lemma_read_lines_distinct(
            notes,
            blank_draft(Seq::empty()),
            crate::text::lines(crate::grammar::escaped(inputs[k])),
            0,
            how,
        );
        match read(notes, inputs[k], how) {
            Ok(after) => {
                lemma_read_all_distinct(after, inputs, k + 1, how);
            },
            Err(_) => {},
        }
    }
}

/// Looking at a dependency keeps the names of the todos and stubs distinct.
pub proof fn lemma_with_dependency_distinct(
    dict: Seq<TodoView>,
    stubs: Stubs,
    auto_add: bool,
    parent: Seq<u8>,
    dep: Seq<u8>,
)
    requires
        distinct_names(dict + stubs.todos),
    ensures
        match with_dependency(dict, stubs, auto_add, parent, dep) {
            Ok(after) => distinct_names(dict + after.todos),
            Err(_) => true,
        },
{
    match with_dependency(dict, stubs, auto_add, parent, dep) {
        Ok(after) => {
            if after.todos.len() > stubs.todos.len() {
                let name = bare_name(dep);
                let t = after.todos.last();
                lemma_find_from(dict, name, 0);
                lemma_find_from(stubs.todos, name, 0);
                assert(name_fault(bare_name(dep)) is None);
                assert(t.name == name);
                let all = dict + after.todos;
                assert(all =~= (dict + stubs.todos).push(t));
                assert forall|i: int, j: int| 0 <= i < j < all.len() implies #[trigger] all[i].name
                    != #[trigger] all[j].name by {
                    if j == all.len() - 1 {
                        if i < dict.len() {
                            assert(all[i] == dict[i]);
                        } else {
                            assert(all[i] == stubs.todos[i - dict.len()]);
                        }
                    } else {
                        assert(all[i] == (dict + stubs.todos)[i]);
                        assert(all[j] == (dict + stubs.todos)[j]);
                    }
                }
                assert forall|i: int| 0 <= i < all.len() implies (#[trigger] all[i]).name.len() > 0
                    && all[i].name.last() != SLASH by {
                    if i < all.len() - 1 {
                        assert(all[i] == (dict + stubs.todos)[i]);
                    }
                }
            }
        },
        Err(_) => {},
    }
}

/// Looking at the dependencies keeps the names of the todos and stubs
/// distinct.
pub proof fn lemma_with_dependencies_distinct(
    dict: Seq<TodoView>,
    stubs: Stubs,
    auto_add: bool,
    i: int,
    j: int,
)
    requires
        distinct_names(dict + stubs.todos),
    ensures
        match with_dependencies(dict, stubs, auto_add, i, j) {
            Ok(after) => distinct_names(dict + after.todos),
            Err(_) => true,
        },
    decreases dict.len() - i, dict[i].dependencies.len() - j,
{
    if 0 <= i < dict.len() {
        if 0 <= j < dict[i].dependencies.len() {
            lemma_with_dependency_distinct(
                dict,
                stubs,
                auto_add,
                dict[i].name,
                dict[i].dependencies[j],
            );
            match with_dependency(dict, stubs, auto_add, dict[i].name, dict[i].dependencies[j]) {
                Ok(after) => {
                    lemma_with_dependencies_distinct(dict, after, auto_add, i, j + 1);
                },
                Err(_) => {},
            }
        } else {
            lemma_with_dependencies_distinct(dict, stubs, auto_add, i + 1, 0);
        }
    }
}

/// The todos gathered for a request have distinct names, and the root
/// gathered has the name of the root and no children.
pub proof fn lemma_gathered_distinct(req: Request)
    ensures
        match gathered(req) {
            Ok((dict, root, _)) => distinct_names(dict) && root.name == root_name()
                && root.children.len() == 0,
            Err(_) => true,
        },
{
    let start = Notes { dict: Seq::empty(), prelude: Seq::empty() };
    let how = Reading {
        separator: req.separator,
        hide_comment: req.hide_comment,
        hide_owner: req.hide_owner,
    };
    lemma_read_all_distinct(start, req.inputs, 0, how);
    match read_all(start, req.inputs, 0, how) {
        Ok(notes) => {
            let none = Stubs { todos: Seq::empty(), parents: Seq::empty() };
            assert(notes.dict + none.todos =~= notes.dict);
            lemma_with_dependencies_distinct(notes.dict, none, req.auto_add, 0, 0);
        },
        Err(_) => {},
    }
}

/// The todos of a tree are told apart by their names.
///
/// In every tree that [`crate::tree::Tree::new`] makes, no two of the todos
/// have the same name, and no name is empty or ends with `/`.
pub proof fn law_tree_names_distinct(req: Request)
    ensures
        match planted(req) {
            Ok(tree) => distinct_names(tree.dict),
            Err(_) => true,
        },
{
    lemma_gathered_distinct(req);
}

/// The root of a tree has the name of the root.
pub proof fn lemma_planted_root(req: Request)
    ensures
        match planted(req) {
            Ok(tree) => tree.root.name == root_name(),
            Err(_) => true,
        },
{
    lemma_gathered_distinct(req);
    match planted(req) {
        Ok(tree) => {
            let (dict, root, prelude) = gathered(req)->Ok_0;
            let opts = Options { hide: req.hide_done, limit: req.dpth_limit, owners: req.owners };
            let st = Walk {
                visited: crate::tree::no_flags(dict.len()),
                path: crate::tree::no_flags(dict.len()),
                used: crate::tree::no_flags(req.owners.len()),
            };
            let (v, entered) = enter(root, opts, st);
            lemma_walk_visits(dict, opts, v, 0, entered, 0);
        },
        Err(_) => {},
    }
}

/// No todo is shown twice in a tree.
///
/// In every tree that [`crate::tree::Tree::new`] makes, no name occurs twice
/// among the todos below the root, cut marks aside.
pub proof fn law_tree_shows_once(req: Request)
    ensures
        match planted(req) {
            Ok(tree) => shown(tree.root).no_duplicates(),
            Err(_) => true,
        },
{
    lemma_gathered_distinct(req);
    match planted(req) {
        Ok(tree) => {
            let (dict, root, prelude) = gathered(req)->Ok_0;
            let opts = Options { hide: req.hide_done, limit: req.dpth_limit, owners: req.owners };
            let st = Walk {
                visited: crate::tree::no_flags(dict.len()),
                path: crate::tree::no_flags(dict.len()),
                used: crate::tree::no_flags(req.owners.len()),
            };
            law_shown_once(dict, opts, root, st, 0);
            let (node, _, _) = resolved(dict, opts, root, st, 0)->Ok_0;
            lemma_shown_same(tree.root, node, 0);
        },
        Err(_) => {},
    }
}

/// The same request gives the same tree and the same output.
///
/// What [`crate::tree::Tree::new`] returns is a function of its arguments,
/// and what [`crate::tree::Tree::render`] writes is a function of the tree:
/// whatever two trees are made from one request are equal, and are rendered
/// alike.
pub proof fn law_same_request_same_output(req: Request, a: TreeView, b: TreeView)
    requires
        planted(req) == Ok::<TreeView, TodoErrorView>(a),
        planted(req) == Ok::<TreeView, TodoErrorView>(b),
    ensures
        a == b,
        a.rendered() == b.rendered(),
{
}

/// Only a header files a todo.
///
/// A line that is no header leaves the todos and the prelude as they were,
/// whether it is taken or refused.
pub proof fn law_only_headers_file(notes: Notes, draft: DraftView, line: Seq<u8>, how: Reading)
    requires
        !header_mark().is_prefix_of(trimmed(line)),
    ensures
        match read_line(notes, draft, line, how) {
            Ok((after, _)) => after == notes,
            Err(_) => left_by_line(notes, draft, line, how) == notes,
        },
{
    reveal(read_line);
}

/// A todo that names itself among its dependencies is refused.
///
/// A dependency line with a word that names, markers aside, the todo whose
/// definition the line belongs to is an error, under whatever notes and
/// options the line is read, and leaves the notes as they were.
pub proof fn law_self_dependency_refused(
    notes: Notes,
    draft: DraftView,
    line: Seq<u8>,
    how: Reading,
    k: int,
)
    requires
        dependency_mark().is_prefix_of(trimmed(line)),
        0 <= k < words(trimmed(line).skip(3)).len(),
        bare_name(words(trimmed(line).skip(3))[k]) == bare_name(draft.name),
    ensures
        read_line(notes, draft, line, how) == Err::<(Notes, DraftView), TodoErrorView>(
            TodoErrorView::SelfDependency { name: bare_name(draft.name) },
        ),
        left_by_line(notes, draft, line, how) == notes,
{
    reveal(read_line);
    let ln = trimmed(line);
    assert(ln[0] == dependency_mark()[0]);
    assert(ln[2] == dependency_mark()[2]);
    assert(!header_mark().is_prefix_of(ln)) by {
        if header_mark().is_prefix_of(ln) {
            assert(ln[0] == header_mark()[0]);
        }
    }
    assert(!owner_mark().is_prefix_of(ln)) by {
        if owner_mark().is_prefix_of(ln) {
            assert(ln[2] == owner_mark()[2]);
        }
    }
    assert(!comment_mark().is_prefix_of(ln)) by {
        if comment_mark().is_prefix_of(ln) {
            assert(ln[2] == comment_mark()[2]);
        }
    }
    let deps = draft.dependencies + words(ln.skip(3));
    crate::assemble::lemma_first_naming(deps, bare_name(draft.name), 0);
    assert(deps[draft.dependencies.len() + k] == words(ln.skip(3))[k]);
}

/// Where every todo is a dependency of another, no todo is at the top.
pub proof fn lemma_no_tops(dict: Seq<TodoView>, k: int)
    requires
        forall|i: int| 0 <= i < dict.len() ==> is_needed(dict, (#[trigger] dict[i]).name),
    ensures
        tops_from(dict, k).len() == 0,
    decreases dict.len() - k,
{
    if 0 <= k < dict.len() {
        lemma_no_tops(dict, k + 1);
        assert(is_needed(dict, dict[k].name));
    }
}

/// A graph in which every todo is a dependency of another is refused for
/// having no root.
///
/// If the files can be read and define todos, no targets are given, and each
/// todo defined is a dependency of some todo, making the tree fails with
/// [`TodoErrorView::NoRoot`].
pub proof fn law_no_top_no_tree(req: Request, format: Format, notes: Notes)
    requires
        Format::named(req.format) == Some(format),
        !(req.reverse && format != Format::Term && format != Format::Html),
        read_all(
            Notes { dict: Seq::empty(), prelude: Seq::empty() },
            req.inputs,
            0,
            Reading {
                separator: req.separator,
                hide_comment: req.hide_comment,
                hide_owner: req.hide_owner,
            },
        ) == Ok::<Notes, TodoErrorView>(notes),
        notes.dict.len() > 0,
        req.targets.len() == 0,
        forall|i: int|
            0 <= i < notes.dict.len() ==> is_needed(notes.dict, (#[trigger] notes.dict[i]).name),
    ensures
        planted(req) == Err::<TreeView, TodoErrorView>(TodoErrorView::NoRoot),
{
    lemma_no_tops(notes.dict, 0);
}

/// No todo is left out of a tree.
///
/// In a tree that [`crate::tree::Tree::new`] makes when nothing is asked to
/// be left out, every todo that the root depends on is shown below the
/// root, and so is every todo that a todo shown depends on. With
/// [`law_tree_shows_once`], each is shown exactly once.
pub proof fn law_tree_shows_all(req: Request)
    requires
        !req.hide_done,
        req.dpth_limit == 0,
        req.owners.len() == 0,
    ensures
        match planted(req) {
            Ok(tree) => {
                &&& forall|m: int|
                    0 <= m < gathered(req)->Ok_0.1.dependencies.len() ==> shown(
                        tree.root,
                    ).contains(#[trigger] target(gathered(req)->Ok_0.1, m))
                &&& forall|j: int, m: int|
                    0 <= j < tree.dict.len() && shown(tree.root).contains(tree.dict[j].name) && 0
                        <= m < tree.dict[j].dependencies.len() ==> shown(tree.root).contains(
                        #[trigger] target(tree.dict[j], m),
                    )
            },
            Err(_) => true,
        },
{
    lemma_gathered_distinct(req);
    match planted(req) {
        Ok(tree) => {
            let (dict, root, prelude) = gathered(req)->Ok_0;
            let opts = Options { hide: req.hide_done, limit: req.dpth_limit, owners: req.owners };
            let st = Walk {
                visited: crate::tree::no_flags(dict.len()),
                path: crate::tree::no_flags(dict.len()),
                used: crate::tree::no_flags(req.owners.len()),
            };
            law_shown_all(dict, opts, root, st, 0);
            let (node, _, _) = resolved(dict, opts, root, st, 0)->Ok_0;
            lemma_shown_same(tree.root, node, 0);
        },
        Err(_) => {},
    }
}

/// Whether one of the first `upto` dependencies of `t` names a todo of the
/// store that is not completed.
pub open spec fn has_pending(store: Seq<TodoView>, t: TodoView, upto: int) -> bool {
    exists|m: int|
        0 <= m < upto && m < t.dependencies.len() && store[find(
            store,
            #[trigger] target(t, m),
        )].status != Status::Completed
}

/// The status that resolving gives a todo defined as `t`: actionable if the
/// todo is not completed and no dependency of it is pending, else what it
/// was.
pub open spec fn settled_status(store: Seq<TodoView>, t: TodoView) -> Status {
    if t.status != Status::Completed && !has_pending(store, t, t.dependencies.len() as int) {
        Status::Actionable
    } else {
        t.status
    }
}

/// Whether `n` is a todo of the store as resolving leaves it: with the
/// dependencies and the name of that todo, a cut mark aside, and with the
/// status that resolving gives it; and the todo, if completed, has no
/// pending dependency.
pub open spec fn is_settled(store: Seq<TodoView>, n: TodoView) -> bool {
    exists|j: int|
        0 <= j < store.len() && n.dependencies == (#[trigger] store[j]).dependencies && (n.name
            == store[j].name || n.name == store[j].name.push(SLASH)) && n.status == settled_status(
            store,
            store[j],
        ) && !(store[j].status == Status::Completed && has_pending(
            store,
            store[j],
            store[j].dependencies.len() as int,
        ))
}

/// Whether the todo `v`, while the walk has gone through its first `i`
/// dependencies, has noted a pending one exactly if there is one among
/// them, and every todo attached below it is settled.
pub open spec fn settling(store: Seq<TodoView>, v: Visit, i: int, parts: Seq<TodoView>) -> bool {
    &&& (v.pending.len() > 0 <==> has_pending(store, v.node, i))
    &&& forall|k: int| 0 <= k < parts.len() ==> is_settled(store, #[trigger] parts[k])
}

/// While the walk goes through the dependencies of a todo, it notes the
/// pending ones, and every todo that it attaches is settled.
pub proof fn lemma_walk_settles(
    store: Seq<TodoView>,
    opts: Options,
    v: Visit,
    i: int,
    st: Walk,
    depth: nat,
)
    requires
        st.visited.len() == store.len(),
        st.path.len() == store.len(),
        0 <= i,
        settling(store, v, i, below(v.node)),
    ensures
        match walk(store, opts, v, i, st, depth) {
            Ok((w, _)) => settling(
                store,
                w,
                w.node.dependencies.len() as int,
                below(w.node),
            ),
            Err(_) => true,
        },
    decreases unvisited(st.visited), v.node.dependencies.len() - i,
{
    if i < v.node.dependencies.len() {
        let name = bare_name(v.node.dependencies[i]);
        let d = find(store, name);
        lemma_find_from(store, name, 0);
        if d < store.len() && !st.path[d] {
            let pending = store[d].status != Status::Completed;
            let seen = Visit {
                pending: if pending {
                    v.pending.push(name)
                } else {
                    v.pending
                },
                ..v
            };
            assert(target(v.node, i) == name);
            assert(seen.pending.len() > 0 <==> has_pending(store, seen.node, i + 1)) by {
                if has_pending(store, seen.node, i + 1) {
                    let m = choose|m: int|
                        0 <= m < i + 1 && m < seen.node.dependencies.len() && store[find(
                            store,
                            #[trigger] target(seen.node, m),
                        )].status != Status::Completed;
                    if m < i {
                        assert(target(v.node, m) == target(seen.node, m));
                        assert(has_pending(store, v.node, i));
                    }
                }
                if v.pending.len() > 0 {
                    let m = choose|m: int|
                        0 <= m < i && m < v.node.dependencies.len() && store[find(
                            store,
                            #[trigger] target(v.node, m),
                        )].status != Status::Completed;
                    assert(target(seen.node, m) == target(v.node, m));
                }
                if pending {
                    assert(target(seen.node, i) == name);
                }
            }
            if in_scope(opts.limit, depth) && !st.visited[d] {
                let inside = Walk {
                    visited: st.visited.update(d, true),
                    path: st.path.update(d, true),
                    ..st
                };
                let (c, entered) = enter(fresh(store[d]), opts, inside);
                lemma_unvisited_update(st.visited, d);
                lemma_walk_visits(store, opts, c, 0, entered, depth + 1);
                assert(below(c.node) =~= Seq::<TodoView>::empty());
                assert(!has_pending(store, c.node, 0));
                lemma_walk_settles(store, opts, c, 0, entered, depth + 1);
                match walk(store, opts, c, 0, entered, depth + 1) {
                    Ok((c2, after)) => {
                        match leave(opts, c2, depth + 1) {
                            Ok(child) => {
                                let next = Walk { path: after.path.update(d, false), ..after };
                                let grown = adopt(opts, seen, child, c2.owned, pending);
                                lemma_below_same(child, c2.node, 0);
                                assert(below(child) == below(c2.node));
                                assert(is_settled(store, child)) by {
                                    lemma_same_pending(store, c2.node, store[d]);
                                    assert(child.dependencies == store[d].dependencies);
                                }
                                if grown.node.children.len() > v.node.children.len() {
                                    lemma_below_push(v.node, child, 0);
                                    lemma_below_same(
                                        grown.node,
                                        TodoView {
                                            children: v.node.children.push(child),
                                            ..v.node
                                        },
                                        0,
                                    );
                                    let old = below(v.node);
                                    let sub = below(child);
                                    let all = below(grown.node);
                                    assert(all == old + seq![child] + sub);
                                    assert forall|k: int| 0 <= k < all.len() implies is_settled(
                                        store,
                                        #[trigger] all[k],
                                    ) by {
                                        if k < old.len() {
                                            assert(all[k] == old[k]);
                                        } else if k > old.len() {
                                            assert(all[k] == sub[k - old.len() - 1]);
                                        }
                                    }
                                } else {
                                    lemma_below_same(grown.node, v.node, 0);
                                    assert(below(grown.node) == below(v.node));
                                }
                                lemma_same_pending_upto(store, seen.node, grown.node, i + 1);
                                lemma_walk_settles(store, opts, grown, i + 1, next, depth);
                            },
                            Err(_) => {},
                        }
                    },
                    Err(_) => {},
                }
            } else {
                lemma_below_same(seen.node, v.node, 0);
                assert(below(seen.node) == below(v.node));
                lemma_walk_settles(store, opts, seen, i + 1, st, depth);
            }
        }
    }
}

/// Todos of the same dependencies have the same pending ones.
pub proof fn lemma_same_pending_upto(store: Seq<TodoView>, a: TodoView, b: TodoView, upto: int)
    requires
        a.dependencies == b.dependencies,
    ensures
        has_pending(store, a, upto) == has_pending(store, b, upto),
{
    if has_pending(store, a, upto) {
        let m = choose|m: int|
            0 <= m < upto && m < a.dependencies.len() && store[find(
                store,
                #[trigger] target(a, m),
            )].status != Status::Completed;
        assert(target(b, m) == target(a, m));
    }
    if has_pending(store, b, upto) {
        let m = choose|m: int|
            0 <= m < upto && m < b.dependencies.len() && store[find(
                store,
                #[trigger] target(b, m),
            )].status != Status::Completed;
        assert(target(a, m) == target(b, m));
    }
}

/// The same of all their dependencies.
pub proof fn lemma_same_pending(store: Seq<TodoView>, a: TodoView, b: TodoView)
    requires
        a.dependencies == b.dependencies,
    ensures
        has_pending(store, a, a.dependencies.len() as int) == has_pending(
            store,
            b,
            b.dependencies.len() as int,
        ),
{
    lemma_same_pending_upto(store, a, b, a.dependencies.len() as int);
}

/// Status follows from the completion markers.
///
/// In the tree resolved below a todo without children, the todo itself and
/// every todo below it is actionable exactly if it was not completed and
/// every todo that it depends on is completed; else it has the status that
/// it had. No completed todo in it depends on one that is not completed.
pub proof fn law_status_is_settled(
    store: Seq<TodoView>,
    opts: Options,
    t: TodoView,
    st: Walk,
    depth: nat,
)
    requires
        st.visited.len() == store.len(),
        st.path.len() == store.len(),
        t.children.len() == 0,
    ensures
        match resolved(store, opts, t, st, depth) {
            Ok((node, _, _)) => {
                &&& node.status == settled_status(store, t)
                &&& !(t.status == Status::Completed && has_pending(
                    store,
                    t,
                    t.dependencies.len() as int,
                ))
                &&& forall|k: int|
                    0 <= k < below(node).len() ==> is_settled(
                        store,
                        #[trigger] below(node)[k],
                    )
            },
            Err(_) => true,
        },
{
    let (v, entered) = enter(t, opts, st);
    assert(below(v.node) =~= Seq::<TodoView>::empty());
    assert(!has_pending(store, v.node, 0));
    lemma_walk_settles(store, opts, v, 0, entered, depth);
    lemma_walk_visits(store, opts, v, 0, entered, depth);
    match walk(store, opts, v, 0, entered, depth) {
        Ok((w, after)) => {
            match leave(opts, w, depth) {
                Ok(node) => {
                    lemma_below_same(node, w.node, 0);
                    assert(below(node) == below(w.node));
                    lemma_same_pending(store, w.node, t);
                },
                Err(_) => {},
            }
        },
        Err(_) => {},
    }
}

/// Status follows from the completion markers, in every tree.
///
/// In a tree that [`crate::tree::Tree::new`] makes, every todo below the
/// root is one of the todos gathered, with the status that resolving gives
/// it: actionable exactly if it is not completed and every todo that it
/// depends on is completed. No completed todo in the tree depends on one
/// that is not completed.
pub proof fn law_tree_status_is_settled(req: Request)
    ensures
        match planted(req) {
            Ok(tree) => forall|k: int|
                0 <= k < below(tree.root).len() ==> is_settled(
                    tree.dict,
                    #[trigger] below(tree.root)[k],
                ),
            Err(_) => true,
        },
{
    lemma_gathered_distinct(req);
    match planted(req) {
        Ok(tree) => {
            let (dict, root, prelude) = gathered(req)->Ok_0;
            let opts = Options { hide: req.hide_done, limit: req.dpth_limit, owners: req.owners };
            let st = Walk {
                visited: crate::tree::no_flags(dict.len()),
                path: crate::tree::no_flags(dict.len()),
                used: crate::tree::no_flags(req.owners.len()),
            };
            law_status_is_settled(dict, opts, root, st, 0);
            let (node, _, _) = resolved(dict, opts, root, st, 0)->Ok_0;
            lemma_below_same(tree.root, node, 0);
            assert(below(tree.root) == below(node));
        },
        Err(_) => {},
    }
}

} // verus!
