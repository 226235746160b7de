//! Loops of dependencies: a loop that resolving reports is a loop, and a
//! loop within reach is reported.
use crate::{Format, Status, TodoErrorView};
use crate::assemble::{target, with_dependencies, with_dependency, with_stubs, Stubs};
use crate::grammar::{blank_draft, read, read_all, read_line, read_lines, DraftView, Notes, Reading};
use crate::kin::lemma_tops;
use crate::laws::{lemma_find_from, lemma_read_all_distinct, lemma_walk_visits};
use crate::legibility::{
    lemma_found, lemma_stub_needs_nothing, lemma_with_dependencies_resolve, resolves,
};
use crate::regrow::lemma_gathered_unresolved;
use crate::resolve::{
    adopt, enter, find, fresh, in_scope, leave, lemma_unvisited_update, resolved, unvisited, walk,
    Options, Visit, Walk,
};
use crate::todo::{bare_name, is_marked, TodoView};
use crate::tree::{gathered, planted, Request};
use vstd::prelude::*;

verus! {

/// Whether todo `a` of the store has a dependency that names todo `b`.
pub open spec fn depends_on(store: Seq<TodoView>, a: int, b: int) -> bool {
    exists|m: int|
        0 <= m < store[a].dependencies.len() && find(store, #[trigger] target(store[a], m)) == b
}

/// Whether a chain of `n` dependencies leads from todo `a` to todo `b`.
pub open spec fn leads(store: Seq<TodoView>, a: int, b: int, n: nat) -> bool
    decreases n,
{
    if n == 0 {
        a == b
    } else {
        exists|c: int|
            0 <= c < store.len() && #[trigger] depends_on(store, a, c) && leads(
                store,
                c,
                b,
                (n - 1) as nat,
            )
    }
}

/// Whether some chain of dependencies leads from todo `a` to todo `b`.
pub open spec fn reaches(store: Seq<TodoView>, a: int, b: int) -> bool {
    exists|n: nat| leads(store, a, b, n)
}

/// Whether some chain of one dependency or more leads from todo `a` back to
/// itself.
pub open spec fn on_loop(store: Seq<TodoView>, a: int) -> bool {
    exists|n: nat| n > 0 && leads(store, a, a, n)
}

/// A chain goes on by one dependency.
pub proof fn lemma_leads_on(store: Seq<TodoView>, a: int, b: int, c: int, n: nat)
    requires
        leads(store, a, b, n),
        0 <= b < store.len(),
        0 <= c < store.len(),
        depends_on(store, b, c),
    ensures
        leads(store, a, c, n + 1),
    decreases n,
{
    if n == 0 {
        assert(leads(store, c, c, 0));
        assert(leads(store, c, c, ((n + 1) - 1) as nat));
    } else {
        let m = (n - 1) as nat;
        let x = choose|x: int|
            0 <= x < store.len() && #[trigger] depends_on(store, a, x) && leads(store, x, b, m);
        lemma_leads_on(store, x, b, c, m);
        assert(leads(store, x, c, ((n + 1) - 1) as nat));
    }
}

/// Whether the todos that the walk is inside of lead to the todo `cur` whose
/// dependencies it is going through: each of them reaches `cur`, which has
/// the name and the dependencies of `node`. For a todo that is not of the
/// store, `cur` is -1 and the walk is inside of nothing.
pub open spec fn path_leads_to(store: Seq<TodoView>, path: Seq<bool>, cur: int, node: TodoView) -> bool {
    if cur < 0 {
        forall|j: int| 0 <= j < store.len() ==> !path[j]
    } else {
        &&& cur < store.len()
        &&& store[cur].name == node.name
        &&& store[cur].dependencies == node.dependencies
        &&& forall|j: int| 0 <= j < store.len() && path[j] ==> reaches(store, j, cur)
    }
}

/// Whether an error, if it reports a loop, names a todo that is on one.
pub open spec fn loop_is_real(store: Seq<TodoView>, e: TodoErrorView) -> bool {
    e matches TodoErrorView::DependencyLoop { name } ==> exists|k: int|
        0 <= k < store.len() && (#[trigger] store[k]).name == name && on_loop(store, k)
}

/// A loop that the walk reports while it goes through the dependencies of
/// a todo is a loop of the store.
pub proof fn lemma_walk_loops(
    store: Seq<TodoView>,
    opts: Options,
    v: Visit,
    i: int,
    st: Walk,
    depth: nat,
    cur: int,
)
    requires
        st.visited.len() == store.len(),
        st.path.len() == store.len(),
        path_leads_to(store, st.path, cur, v.node),
    ensures
        match walk(store, opts, v, i, st, depth) {
            Ok(_) => true,
            Err(e) => loop_is_real(store, e),
        },
    decreases unvisited(st.visited), v.node.dependencies.len() - i,
{
    if 0 <= i < v.node.dependencies.len() {
        let name = bare_name(v.node.dependencies[i]);
        let d = find(store, name);
        lemma_find_from(store, name, 0);
        if d < store.len() {
            if st.path[d] {
                assert(cur >= 0);
                assert(target(store[cur], i) == name);
                assert(depends_on(store, cur, d));
                let n = choose|n: nat| leads(store, d, cur, n);
                assert(leads(store, d, cur, ((n + 1) - 1) as nat));
                assert(leads(store, cur, cur, n + 1));
                assert(on_loop(store, cur));
            } else {
                let pending = store[d].status != Status::Completed;
                let seen = Visit {
                    pending: if pending {
                        v.pending.push(name)
                    } else {
                        v.pending
                    },
                    ..v
                };
                if in_scope(opts.limit, depth) && !st.visited[d] {
                    let inside = Walk {
                        visited: st.visited.update(d, true),
                        path: st.path.update(d, true),
                        ..st
                    };
                    let (c, entered) = enter(fresh(store[d]), opts, inside);
                    lemma_unvisited_update(st.visited, d);
                    assert forall|j: int| 0 <= j < store.len() && entered.path[j] implies reaches(
                        store,
                        j,
                        d,
                    ) by {
                        if j == d {
                            assert(leads(store, d, d, 0));
                        } else {
                            assert(st.path[j]);
                            assert(target(store[cur], i) == name);
                            assert(depends_on(store, cur, d));
                            let n = choose|n: nat| leads(store, j, cur, n);
                            lemma_leads_on(store, j, cur, d, n);
                        }
                    }
                    lemma_walk_loops(store, opts, c, 0, entered, depth + 1, d);
                    lemma_walk_visits(store, opts, c, 0, entered, depth + 1);
                    match walk(store, opts, c, 0, entered, depth + 1) {
                        Ok((c2, after)) => {
                            match leave(opts, c2, depth + 1) {
                                Ok(child) => {
                                    let next = Walk { path: after.path.update(d, false), ..after };
                                    assert(next.path =~= st.path);
                                    lemma_walk_loops(
                                        store,
                                        opts,
                                        adopt(opts, seen, child, c2.owned, pending),
                                        i + 1,
                                        next,
                                        depth,
                                        cur,
                                    );
                                },
                                Err(_) => {},
                            }
                        },
                        Err(_) => {},
                    }
                } else {
                    lemma_walk_loops(store, opts, seen, i + 1, st, depth, cur);
                }
            }
        }
    }
}

/// A loop that is reported is a loop.
///
/// When resolving from a walk that is inside of no todo fails with
/// [`TodoErrorView::DependencyLoop`], the todo that the error names is a todo
/// of the store from which a chain of dependencies leads back to itself.
pub proof fn law_loop_is_real(
    store: Seq<TodoView>,
    opts: Options,
    t: TodoView,
    st: Walk,
    depth: nat,
)
    requires
        st.visited.len() == store.len(),
        st.path.len() == store.len(),
        forall|j: int| 0 <= j < store.len() ==> !st.path[j],
    ensures
        match resolved(store, opts, t, st, depth) {
            Ok(_) => true,
            Err(e) => loop_is_real(store, e),
        },
{
    let (v, entered) = enter(t, opts, st);
    lemma_walk_loops(store, opts, v, 0, entered, depth, -1);
}

/// Whether a result is no report of a loop.
pub open spec fn no_loop<T>(r: Result<T, TodoErrorView>) -> bool {
    match r {
        Ok(_) => true,
        Err(e) => !(e is DependencyLoop),
    }
}

/// Reading lines reports no loop.
pub proof fn lemma_read_lines_no_loop(
    notes: Notes,
    draft: DraftView,
    text: Seq<Seq<u8>>,
    i: int,
    how: Reading,
)
    ensures
        no_loop(read_lines(notes, draft, text, i, how)),
    decreases text.len() - i,
{
    if 0 <= i < text.len() {
        reveal(read_line);
        match read_line(notes, draft, text[i], how) {
            Ok((after, next)) => {
                lemma_read_lines_no_loop(after, next, text, i + 1, how);
            },
            Err(_) => {},
        }
    }
}

/// Reading files reports no loop.
pub proof fn lemma_read_all_no_loop(notes: Notes, inputs: Seq<Seq<u8>>, k: int, how: Reading)
    ensures
        no_loop(read_all(notes, inputs, k, how)),
    decreases inputs.len() - k,
{
    if 0 <= k < inputs.len() {
        lemma_read_lines_no_loop(
            notes,
            blank_draft(Seq::empty()),
            crate::text::lines(crate::grammar::escaped(inputs[k])),
            0,
            how,
        );
        match read(notes, inputs[k], how) {
            Ok(after) => {
                lemma_read_all_no_loop(after, inputs, k + 1, how);
            },
            Err(_) => {},
        }
    }
}

/// Looking at the dependencies reports no loop.
pub proof fn lemma_with_dependencies_no_loop(
    dict: Seq<TodoView>,
    stubs: Stubs,
    auto_add: bool,
    i: int,
    j: int,
)
    ensures
        no_loop(with_dependencies(dict, stubs, auto_add, i, j)),
    decreases dict.len() - i, dict[i].dependencies.len() - j,
{
    if 0 <= i < dict.len() {
        if 0 <= j < dict[i].dependencies.len() {
            match with_dependency(dict, stubs, auto_add, dict[i].name, dict[i].dependencies[j]) {
                Ok(after) => {
                    lemma_with_dependencies_no_loop(dict, after, auto_add, i, j + 1);
                },
                Err(_) => {},
            }
        } else {
            lemma_with_dependencies_no_loop(dict, stubs, auto_add, i + 1, 0);
        }
    }
}

/// A loop that making a tree reports is a loop of the todos gathered.
///
/// When [`crate::tree::Tree::new`] fails with
/// [`TodoErrorView::DependencyLoop`], the todos were gathered without error,
/// and the todo that the error names is one of them from which a chain of
/// dependencies leads back to itself.
pub proof fn law_tree_loop_is_real(req: Request)
    ensures
        match planted(req) {
            Ok(_) => true,
            Err(e) => e is DependencyLoop ==> gathered(req) is Ok && loop_is_real(
                gathered(req)->Ok_0.0,
                e,
            ),
        },
{
    let start = Notes { dict: Seq::empty(), prelude: Seq::empty() };
    let how = Reading {
        separator: req.separator,
        hide_comment: req.hide_comment,
        hide_owner: req.hide_owner,
    };
    lemma_read_all_no_loop(start, req.inputs, 0, how);
    match read_all(start, req.inputs, 0, how) {
        Ok(notes) => {
            let none = Stubs { todos: Seq::empty(), parents: Seq::empty() };
            lemma_with_dependencies_no_loop(notes.dict, none, req.auto_add, 0, 0);
        },
        Err(_) => {},
    }
    match gathered(req) {
        Ok((dict, root, _)) => {
            let opts = Options { hide: req.hide_done, limit: req.dpth_limit, owners: req.owners };
            let st = Walk {
                visited: crate::tree::no_flags(dict.len()),
                path: crate::tree::no_flags(dict.len()),
                used: crate::tree::no_flags(req.owners.len()),
            };
            law_loop_is_real(dict, opts, root, st, 0);
        },
        Err(_) => {},
    }
}

/// Whether the first `upto` dependencies of `t` name todos that the walk has
/// left, each with a rank below `bound`.
pub open spec fn needs_left(
    store: Seq<TodoView>,
    t: TodoView,
    upto: int,
    st: Walk,
    rank: Map<int, nat>,
    bound: nat,
) -> bool {
    forall|m: int|
        0 <= m < upto && m < t.dependencies.len() ==> {
            let d = find(store, #[trigger] target(t, m));
            &&& 0 <= d < store.len()
            &&& st.visited[d]
            &&& !st.path[d]
            &&& rank.dom().contains(d)
            &&& rank[d] < bound
        }
}

/// Whether the walk has left todo `j`: it has visited it and is not inside
/// of it.
pub open spec fn left(st: Walk, j: int) -> bool {
    st.visited[j] && !st.path[j]
}

/// Whether the todos that the walk has left are ranked: they, and only
/// they, have a rank, which is below `next`, and each depends only on todos
/// that the walk has left, of lower rank.
pub open spec fn ranked(store: Seq<TodoView>, st: Walk, rank: Map<int, nat>, next: nat) -> bool {
    &&& forall|j: int| #[trigger] rank.dom().contains(j) ==> 0 <= j < store.len() && left(st, j)
    &&& forall|j: int|
        0 <= j < store.len() && #[trigger] left(st, j) ==> rank.dom().contains(j) && rank[j]
            < next && needs_left(
            store,
            store[j],
            store[j].dependencies.len() as int,
            st,
            rank,
            rank[j],
        )
}

/// While a walk without positive depth limit goes through the dependencies
/// of a todo, the todos that it has left stay ranked; in the end it has left
/// every dependency of the todo. The ranks as they stand then are returned.
pub proof fn lemma_walk_ranks(
    store: Seq<TodoView>,
    opts: Options,
    v: Visit,
    i: int,
    st: Walk,
    depth: nat,
    rank: Map<int, nat>,
    next: nat,
) -> (r: (Map<int, nat>, nat))
    requires
        opts.limit <= 0,
        st.visited.len() == store.len(),
        st.path.len() == store.len(),
        0 <= i,
        ranked(store, st, rank, next),
        needs_left(store, v.node, i, st, rank, next),
    ensures
        match walk(store, opts, v, i, st, depth) {
            Ok((w, after)) => {
                &&& ranked(store, after, r.0, r.1)
                &&& needs_left(store, w.node, w.node.dependencies.len() as int, after, r.0, r.1)
                &&& next <= r.1
                &&& forall|j: int|
                    #[trigger] rank.dom().contains(j) ==> r.0.dom().contains(j) && r.0[j]
                        == rank[j]
            },
            Err(_) => true,
        },
    decreases unvisited(st.visited), v.node.dependencies.len() - i,
{
    let mut ranks = rank;
    let mut bound = next;
    if i < v.node.dependencies.len() {
        let name = bare_name(v.node.dependencies[i]);
        let d = find(store, name);
        lemma_find_from(store, name, 0);
        if d < store.len() && !st.path[d] {
            let pending = store[d].status != Status::Completed;
            let seen = Visit {
                pending: if pending {
                    v.pending.push(name)
                } else {
                    v.pending
                },
                ..v
            };
            assert(target(v.node, i) == name);
            if !st.visited[d] {
                let inside = Walk {
                    visited: st.visited.update(d, true),
                    path: st.path.update(d, true),
                    ..st
                };
                let (c, entered) = enter(fresh(store[d]), opts, inside);
                lemma_unvisited_update(st.visited, d);
                lemma_walk_visits(store, opts, c, 0, entered, depth + 1);
                assert(ranked(store, entered, rank, next)) by {
                    assert forall|j: int| 0 <= j < store.len() && #[trigger] left(
                        entered,
                        j,
                    ) implies rank.dom().contains(j) && rank[j] < next && needs_left(
                        store,
                        store[j],
                        store[j].dependencies.len() as int,
                        entered,
                        rank,
                        rank[j],
                    ) by {
                        assert(left(st, j));
                    }
                    assert forall|j: int| #[trigger] rank.dom().contains(j) implies 0 <= j
                        < store.len() && left(entered, j) by {
                        assert(left(st, j));
                    }
                }
                let (rank1, next1) = lemma_walk_ranks(
                    store,
                    opts,
                    c,
                    0,
                    entered,
                    depth + 1,
                    rank,
                    next,
                );
                match walk(store, opts, c, 0, entered, depth + 1) {
                    Ok((c2, after)) => {
                        match leave(opts, c2, depth + 1) {
                            Ok(child) => {
                                let then = Walk { path: after.path.update(d, false), ..after };
                                assert(then.path =~= st.path);
                                let grown = adopt(opts, seen, child, c2.owned, pending);
                                let rank2 = rank1.insert(d, next1);
                                let next2 = next1 + 1;
                                assert(after.path[d]);
                                assert(after.visited[d]);
                                assert(ranked(store, then, rank2, next2)) by {
                                    assert forall|j: int| #[trigger] rank2.dom().contains(
                                        j,
                                    ) implies 0 <= j < store.len() && left(then, j) by {
                                        if j != d {
                                            assert(rank1.dom().contains(j));
                                            assert(left(after, j));
                                        }
                                    }
                                    assert forall|j: int| 0 <= j < store.len() && #[trigger] left(
                                        then,
                                        j,
                                    ) implies rank2.dom().contains(j) && rank2[j] < next2
                                        && needs_left(
                                        store,
                                        store[j],
                                        store[j].dependencies.len() as int,
                                        then,
                                        rank2,
                                        rank2[j],
                                    ) by {
                                        if j == d {
                                            assert forall|m: int|
                                                0 <= m < store[d].dependencies.len() implies {
                                                let x = find(store, #[trigger] target(store[d], m));
                                                &&& 0 <= x < store.len()
                                                &&& then.visited[x]
                                                &&& !then.path[x]
                                                &&& rank2.dom().contains(x)
                                                &&& rank2[x] < rank2[d]
                                            } by {
                                                assert(target(c2.node, m) == target(store[d], m));
                                            }
                                        } else {
                                            assert(left(after, j));
                                            assert forall|m: int|
                                                0 <= m < store[j].dependencies.len() implies {
                                                let x = find(store, #[trigger] target(store[j], m));
                                                &&& 0 <= x < store.len()
                                                &&& then.visited[x]
                                                &&& !then.path[x]
                                                &&& rank2.dom().contains(x)
                                                &&& rank2[x] < rank2[j]
                                            } by {}
                                        }
                                    }
                                }
                                assert(needs_left(store, grown.node, i + 1, then, rank2, next2)) by {
                                    assert forall|m: int|
                                        0 <= m < i + 1 && m < grown.node.dependencies.len() implies {
                                        let x = find(store, #[trigger] target(grown.node, m));
                                        &&& 0 <= x < store.len()
                                        &&& then.visited[x]
                                        &&& !then.path[x]
                                        &&& rank2.dom().contains(x)
                                        &&& rank2[x] < next2
                                    } by {
                                        assert(target(grown.node, m) == target(v.node, m));
                                        if m < i {
                                            let x = find(store, target(v.node, m));
                                            assert(st.visited[x] && !st.path[x]);
                                            assert(x != d);
                                        }
                                    }
                                }
                                let (rank3, next3) = lemma_walk_ranks(
                                    store,
                                    opts,
                                    grown,
                                    i + 1,
                                    then,
                                    depth,
                                    rank2,
                                    next2,
                                );
                                if walk(store, opts, grown, i + 1, then, depth) is Ok {
                                    assert forall|j: int| #[trigger] rank.dom().contains(
                                        j,
                                    ) implies rank3.dom().contains(j) && rank3[j] == rank[j] by {
                                        assert(rank1.dom().contains(j) && rank1[j] == rank[j]);
                                        assert(left(st, j));
                                        assert(j != d);
                                        assert(rank2.dom().contains(j) && rank2[j] == rank[j]);
                                    }
                                }
                                ranks = rank3;
                                bound = next3;
                            },
                            Err(_) => {},
                        }
                    },
                    Err(_) => {},
                }
            } else {
                assert(left(st, d));
                assert(needs_left(store, seen.node, i + 1, st, rank, next)) by {
                    assert forall|m: int|
                        0 <= m < i + 1 && m < seen.node.dependencies.len() implies {
                        let x = find(store, #[trigger] target(seen.node, m));
                        &&& 0 <= x < store.len()
                        &&& st.visited[x]
                        &&& !st.path[x]
                        &&& rank.dom().contains(x)
                        &&& rank[x] < next
                    } by {
                        assert(target(seen.node, m) == target(v.node, m));
                    }
                }
                let r = lemma_walk_ranks(store, opts, seen, i + 1, st, depth, rank, next);
                ranks = r.0;
                bound = r.1;
            }
        }
    }
    (ranks, bound)
}

/// Along a chain of dependencies from a todo that the walk has left, ranks
/// go down: the chain ends at a todo that the walk has left, of lower rank
/// unless the chain is empty.
pub proof fn lemma_ranks_go_down(
    store: Seq<TodoView>,
    st: Walk,
    rank: Map<int, nat>,
    next: nat,
    j: int,
    k: int,
    n: nat,
)
    requires
        ranked(store, st, rank, next),
        0 <= j < store.len(),
        left(st, j),
        leads(store, j, k, n),
    ensures
        0 <= k < store.len(),
        left(st, k),
        n > 0 ==> rank[k] < rank[j],
        n == 0 ==> k == j,
    decreases n,
{
    if n > 0 {
        let c = choose|c: int|
            0 <= c < store.len() && #[trigger] depends_on(store, j, c) && leads(
                store,
                c,
                k,
                (n - 1) as nat,
            );
        let m = choose|m: int|
            0 <= m < store[j].dependencies.len() && find(store, #[trigger] target(store[j], m))
                == c;
        assert(left(st, j));
        assert(left(st, c));
        lemma_ranks_go_down(store, st, rank, next, c, k, (n - 1) as nat);
    }
}

/// A loop within reach is refused.
///
/// If resolving without positive depth limit, with nothing visited before,
/// succeeds, then no todo is on a loop that a chain of dependencies leads to
/// from a dependency of the todo resolved. So where the todo depends,
/// directly or through others, on a todo from which a chain of dependencies
/// leads back to itself, resolving fails.
pub proof fn law_loop_is_found(
    store: Seq<TodoView>,
    opts: Options,
    t: TodoView,
    st: Walk,
    depth: nat,
)
    requires
        opts.limit <= 0,
        st.visited.len() == store.len(),
        st.path.len() == store.len(),
        forall|j: int| 0 <= j < store.len() ==> !st.visited[j] && !st.path[j],
    ensures
        resolved(store, opts, t, st, depth) is Ok ==> forall|m: int, k: int, n: nat|
            0 <= m < t.dependencies.len() && leads(store, find(store, target(t, m)), k, n)
                ==> !on_loop(store, k),
{
    let (v, entered) = enter(t, opts, st);
    let none = Map::<int, nat>::empty();
    assert(ranked(store, entered, none, 0)) by {
        assert forall|j: int| 0 <= j < store.len() && #[trigger] left(entered, j) implies false by {
            assert(!st.visited[j]);
        }
    }
    let (rank, next) = lemma_walk_ranks(store, opts, v, 0, entered, depth, none, 0);
    if resolved(store, opts, t, st, depth) is Ok {
        let (w, after) = walk(store, opts, v, 0, entered, depth)->Ok_0;
        lemma_walk_visits(store, opts, v, 0, entered, depth);
        assert forall|m: int, k: int, n: nat|
            0 <= m < t.dependencies.len() && leads(
                store,
                find(store, target(t, m)),
                k,
                n,
            ) implies !on_loop(store, k) by {
            let d = find(store, target(t, m));
            assert(target(w.node, m) == target(t, m));
            assert(left(after, d));
            lemma_ranks_go_down(store, after, rank, next, d, k, n);
            if on_loop(store, k) {
                let x = choose|x: nat| x > 0 && leads(store, k, k, x);
                lemma_ranks_go_down(store, after, rank, next, k, k, x);
            }
        }
    }
}

/// A loop within reach of the root is refused.
///
/// If [`crate::tree::Tree::new`] makes a tree without positive depth limit,
/// then no todo is on a loop that a chain of dependencies leads to from a
/// todo below the root: one of the targets, or of the todos that no todo
/// depends on.
pub proof fn law_tree_has_no_loop(req: Request)
    requires
        req.dpth_limit <= 0,
    ensures
        planted(req) is Ok ==> forall|m: int, k: int, n: nat|
            0 <= m < gathered(req)->Ok_0.1.dependencies.len() && leads(
                gathered(req)->Ok_0.0,
                find(gathered(req)->Ok_0.0, target(gathered(req)->Ok_0.1, m)),
                k,
                n,
            ) ==> !on_loop(gathered(req)->Ok_0.0, k),
{
    if planted(req) is Ok {
        let (dict, root, _) = gathered(req)->Ok_0;
        let opts = Options { hide: req.hide_done, limit: req.dpth_limit, owners: req.owners };
        let st = Walk {
            visited: crate::tree::no_flags(dict.len()),
            path: crate::tree::no_flags(dict.len()),
            used: crate::tree::no_flags(req.owners.len()),
        };
        law_loop_is_found(dict, opts, root, st, 0);
    }
}

/// Whether every dependency of `t` names a todo of the store.
pub open spec fn is_defined(store: Seq<TodoView>, t: TodoView) -> bool {
    forall|m: int|
        0 <= m < t.dependencies.len() ==> 0 <= find(store, #[trigger] target(t, m)) < store.len()
}

/// Whether `t`, if it is completed, depends on completed todos only.
pub open spec fn is_finished(store: Seq<TodoView>, t: TodoView) -> bool {
    t.status == Status::Completed ==> forall|m: int|
        0 <= m < t.dependencies.len() ==> store[find(store, #[trigger] target(t, m))].status
            == Status::Completed
}

/// Whether every dependency of every todo of the store names a todo of the
/// store.
pub open spec fn all_defined(store: Seq<TodoView>) -> bool {
    forall|j: int| 0 <= j < store.len() ==> is_defined(store, #[trigger] store[j])
}

/// Whether every completed todo of the store depends on completed todos
/// only.
pub open spec fn all_finished(store: Seq<TodoView>) -> bool {
    forall|j: int| 0 <= j < store.len() ==> is_finished(store, #[trigger] store[j])
}

/// Whether the todo `v` in the walk is finished, and has noted no pending
/// dependency if it is completed, in a store of finished todos.
pub open spec fn is_calm(store: Seq<TodoView>, v: Visit) -> bool {
    &&& all_finished(store)
    &&& is_finished(store, v.node)
    &&& (v.node.status == Status::Completed ==> v.pending.len() == 0)
}

/// Whether a failure reports a loop, or else a completed todo with a pending
/// dependency where there is one.
pub open spec fn fails_by_loop(e: TodoErrorView, calm: bool) -> bool {
    e is DependencyLoop || (e is UnfinishedDependencies && !calm)
}

/// Where every dependency names a todo, the walk through the dependencies
/// of a todo fails only by a loop or by a completed todo with a pending
/// dependency, and by a loop only if no completed todo has a pending
/// dependency.
pub proof fn lemma_walk_fails_by_loop(
    store: Seq<TodoView>,
    opts: Options,
    v: Visit,
    i: int,
    st: Walk,
    depth: nat,
)
    requires
        st.visited.len() == store.len(),
        st.path.len() == store.len(),
        0 <= i,
        all_defined(store),
        is_defined(store, v.node),
    ensures
        match walk(store, opts, v, i, st, depth) {
            Ok((w, _)) => is_calm(store, v) ==> is_calm(store, w),
            Err(e) => fails_by_loop(e, is_calm(store, v)),
        },
    decreases unvisited(st.visited), v.node.dependencies.len() - i,
{
    if i < v.node.dependencies.len() {
        let name = bare_name(v.node.dependencies[i]);
        let d = find(store, name);
        assert(target(v.node, i) == name);
        if !st.path[d] {
            let pending = store[d].status != Status::Completed;
            let seen = Visit {
                pending: if pending {
                    v.pending.push(name)
                } else {
                    v.pending
                },
                ..v
            };
            assert(is_calm(store, v) ==> is_calm(store, seen));
            if in_scope(opts.limit, depth) && !st.visited[d] {
                let inside = Walk {
                    visited: st.visited.update(d, true),
                    path: st.path.update(d, true),
                    ..st
                };
                let (c, entered) = enter(fresh(store[d]), opts, inside);
                lemma_unvisited_update(st.visited, d);
                assert(is_defined(store, store[d]));
                assert(is_defined(store, c.node)) by {
                    assert forall|m: int| 0 <= m < c.node.dependencies.len() implies 0 <= find(
                        store,
                        #[trigger] target(c.node, m),
                    ) < store.len() by {
                        assert(target(c.node, m) == target(store[d], m));
                    }
                }
                assert(all_finished(store) ==> is_calm(store, c)) by {
                    if all_finished(store) {
                        assert(is_finished(store, store[d]));
                        assert forall|m: int|
                            c.node.status == Status::Completed && 0 <= m
                                < c.node.dependencies.len() implies store[find(
                            store,
                            #[trigger] target(c.node, m),
                        )].status == Status::Completed by {
                            assert(target(c.node, m) == target(store[d], m));
                        }
                    }
                }
                lemma_walk_fails_by_loop(store, opts, c, 0, entered, depth + 1);
                lemma_walk_visits(store, opts, c, 0, entered, depth + 1);
                match walk(store, opts, c, 0, entered, depth + 1) {
                    Ok((c2, after)) => {
                        match leave(opts, c2, depth + 1) {
                            Ok(child) => {
                                let next = Walk { path: after.path.update(d, false), ..after };
                                let grown = adopt(opts, seen, child, c2.owned, pending);
                                assert(is_defined(store, grown.node)) by {
                                    assert forall|m: int|
                                        0 <= m < grown.node.dependencies.len() implies 0 <= find(
                                        store,
                                        #[trigger] target(grown.node, m),
                                    ) < store.len() by {
                                        assert(target(grown.node, m) == target(v.node, m));
                                    }
                                }
                                assert(is_calm(store, seen) ==> is_calm(store, grown)) by {
                                    if is_calm(store, seen) {
                                        assert forall|m: int|
                                            grown.node.status == Status::Completed && 0 <= m
                                                < grown.node.dependencies.len() implies store[find(
                                            store,
                                            #[trigger] target(grown.node, m),
                                        )].status == Status::Completed by {
                                            assert(target(grown.node, m) == target(v.node, m));
                                        }
                                    }
                                }
                                lemma_walk_fails_by_loop(store, opts, grown, i + 1, next, depth);
                            },
                            Err(_) => {},
                        }
                    },
                    Err(_) => {},
                }
            } else {
                assert(is_defined(store, seen.node));
                lemma_walk_fails_by_loop(store, opts, seen, i + 1, st, depth);
            }
        }
    }
}

/// A loop within reach makes resolving fail, by a loop.
///
/// Let every dependency name a todo of the store, and let the todo `t`
/// depend, directly or through others, on the todo `k` from which a chain
/// of dependencies leads back to itself. Then resolving below `t` without
/// positive depth limit, with nothing visited before, fails. The failure
/// reports a loop and names a todo that is on one, unless a completed todo
/// with a pending dependency is met before the loop is; it reports the loop
/// whenever no completed todo depends on one that is not completed.
pub proof fn law_loop_is_refused(
    store: Seq<TodoView>,
    opts: Options,
    t: TodoView,
    st: Walk,
    depth: nat,
    m: int,
    k: int,
    n: nat,
)
    requires
        opts.limit <= 0,
        st.visited.len() == store.len(),
        st.path.len() == store.len(),
        forall|j: int| 0 <= j < store.len() ==> !st.visited[j] && !st.path[j],
        all_defined(store),
        is_defined(store, t),
        0 <= m < t.dependencies.len(),
        leads(store, find(store, target(t, m)), k, n),
        on_loop(store, k),
    ensures
        match resolved(store, opts, t, st, depth) {
            Ok(_) => false,
            Err(e) => loop_is_real(store, e) && fails_by_loop(
                e,
                all_finished(store) && is_finished(store, t),
            ),
        },
{
    law_loop_is_found(store, opts, t, st, depth);
    law_loop_is_real(store, opts, t, st, depth);
    let (v, entered) = enter(t, opts, st);
    lemma_walk_fails_by_loop(store, opts, v, 0, entered, depth);
}

/// Once the stubs are added, every dependency of every todo names a todo.
pub proof fn lemma_with_stubs_defined(dict: Seq<TodoView>, auto_add: bool)
    ensures
        match with_stubs(dict, auto_add) {
            Ok(full) => all_defined(full),
            Err(_) => true,
        },
{
    let how = Reading { separator: Seq::empty(), hide_comment: false, hide_owner: false };
    let none = Stubs { todos: Seq::empty(), parents: Seq::empty() };
    lemma_with_dependencies_resolve(dict, none, auto_add, 0, 0, how);
    match with_dependencies(dict, none, auto_add, 0, 0) {
        Ok(after) => {
            let full = dict + after.todos;
            assert forall|j: int| 0 <= j < full.len() implies is_defined(
                full,
                #[trigger] full[j],
            ) by {
                assert forall|m: int| 0 <= m < full[j].dependencies.len() implies 0 <= find(
                    full,
                    #[trigger] target(full[j], m),
                ) < full.len() by {
                    if j < dict.len() {
                        assert(full[j] == dict[j]);
                        assert(resolves(full, dict[j].dependencies[m]));
                    } else {
                        assert(full[j] == after.todos[j - dict.len()]);
                        lemma_stub_needs_nothing(dict, none, auto_add, 0, 0, j - dict.len());
                    }
                }
            }
        },
        Err(_) => {},
    }
}

/// A loop within reach of the root makes [`crate::tree::Tree::new`] fail, by
/// a loop.
///
/// Let the format be known and the todos be gathered, let every target
/// name a todo, and let the root depend, directly or through others, on the
/// todo `k` from which a chain of dependencies leads back to itself. Then
/// no tree is made without positive depth limit. The failure
/// reports a loop and names a todo that is on one, unless a completed todo
/// with a pending dependency is met before the loop is; it reports the loop
/// whenever no completed todo depends on one that is not completed.
pub proof fn law_tree_loop_is_refused(req: Request, m: int, k: int, n: nat)
    requires
        req.dpth_limit <= 0,
        Format::named(req.format) is Some,
        !(req.reverse && Format::named(req.format) != Some(Format::Term) && Format::named(
            req.format,
        ) != Some(Format::Html)),
        gathered(req) is Ok,
        forall|x: int|
            0 <= x < req.targets.len() ==> 0 <= find(
                gathered(req)->Ok_0.0,
                bare_name(#[trigger] req.targets[x]),
            ) < gathered(req)->Ok_0.0.len(),
        0 <= m < gathered(req)->Ok_0.1.dependencies.len(),
        leads(
            gathered(req)->Ok_0.0,
            find(gathered(req)->Ok_0.0, target(gathered(req)->Ok_0.1, m)),
            k,
            n,
        ),
        on_loop(gathered(req)->Ok_0.0, k),
    ensures
        match planted(req) {
            Ok(_) => false,
            Err(e) => loop_is_real(gathered(req)->Ok_0.0, e) && fails_by_loop(
                e,
                all_finished(gathered(req)->Ok_0.0),
            ),
        },
{
    let (dict, root, _) = gathered(req)->Ok_0;
    let opts = Options { hide: req.hide_done, limit: req.dpth_limit, owners: req.owners };
    let st = Walk {
        visited: crate::tree::no_flags(dict.len()),
        path: crate::tree::no_flags(dict.len()),
        used: crate::tree::no_flags(req.owners.len()),
    };
    let start = Notes { dict: Seq::empty(), prelude: Seq::empty() };
    let how = Reading {
        separator: req.separator,
        hide_comment: req.hide_comment,
        hide_owner: req.hide_owner,
    };
    let notes = read_all(start, req.inputs, 0, how)->Ok_0;
    lemma_with_stubs_defined(notes.dict, req.auto_add);
    assert(is_defined(dict, root)) by {
        if req.targets.len() == 0 {
            lemma_read_all_distinct(start, req.inputs, 0, how);
            lemma_tops(notes.dict, 0);
            lemma_gathered_unresolved(req);
            assert forall|x: int| 0 <= x < root.dependencies.len() implies 0 <= find(
                dict,
                #[trigger] target(root, x),
            ) < dict.len() by {
                let name = root.dependencies[x];
                let at = choose|at: int|
                    0 <= at < notes.dict.len() && (#[trigger] notes.dict[at]).name == name;
                assert(dict[at] == notes.dict[at]);
                assert(!is_marked(dict[at].name));
                lemma_found(dict, name, at);
            }
        } else {
            assert forall|x: int| 0 <= x < root.dependencies.len() implies 0 <= find(
                dict,
                #[trigger] target(root, x),
            ) < dict.len() by {
                assert(target(root, x) == bare_name(req.targets[x]));
            }
        }
    }
    law_loop_is_refused(dict, opts, root, st, 0, m, k, n);
}

} // verus!
