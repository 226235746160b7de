//! Resolving goes by names: what the walk makes of a todo depends on the
//! todos that its dependencies name, not on where they stand in the store
//! nor on the markers that the dependencies carry.
use crate::Status;
use crate::assemble::target;
use crate::laws::{lemma_find_from, lemma_walk_visits};
use crate::layout::{extent, extent_below, laid_out, titled, Extent};
use crate::loops::{all_defined, is_defined};
use crate::render::unmarked;
use crate::resolve::{
    adopt, built, enter, find, fresh, in_scope, leave, lemma_unvisited_update, resolved, unvisited,
    walk, Options, Visit, Walk,
};
use crate::todo::{bare_name, is_marked, TodoView};
use vstd::prelude::*;

verus! {

/// A todo with the dependencies, its own and those of every todo below it,
/// without markers.
pub open spec fn plain(t: TodoView) -> TodoView
    decreases t,
{
    TodoView {
        dependencies: unmarked(t.dependencies),
        children: Seq::new(
            t.children.len(),
            |k: int|
                if 0 <= k < t.children.len() {
                    plain(t.children[k])
                } else {
                    arbitrary()
                },
        ),
        ..t
    }
}

/// A todo in the walk, with the dependencies without markers.
pub open spec fn plain_visit(v: Visit) -> Visit {
    Visit { node: plain(v.node), ..v }
}

/// Whether the store `b` holds, of each todo that it has under a name, what
/// the store `a` has under that name, with the dependencies without
/// markers.
pub open spec fn holds_plain(a: Seq<TodoView>, b: Seq<TodoView>) -> bool {
    forall|name: Seq<u8>|
        0 <= #[trigger] find(b, name) < b.len() ==> 0 <= find(a, name) < a.len() && fresh(
            b[find(b, name)],
        ) == plain(fresh(a[find(a, name)]))
}

/// Whether the walk through `b` has visited, and is inside of, the todos of
/// the names of which the walk through `a` has visited, and is inside of,
/// the todos, and has met the same owners.
pub open spec fn same_flags(a: Seq<TodoView>, b: Seq<TodoView>, sa: Walk, sb: Walk) -> bool {
    &&& sa.visited.len() == a.len()
    &&& sa.path.len() == a.len()
    &&& sb.visited.len() == b.len()
    &&& sb.path.len() == b.len()
    &&& sa.used == sb.used
    &&& forall|name: Seq<u8>|
        0 <= #[trigger] find(b, name) < b.len() ==> sb.visited[find(b, name)] == sa.visited[find(
            a,
            name,
        )] && sb.path[find(b, name)] == sa.path[find(a, name)]
}

/// Whether no todo of the store has a name with a marker in front.
pub open spec fn names_unmarked(store: Seq<TodoView>) -> bool {
    forall|j: int| 0 <= j < store.len() ==> !is_marked((#[trigger] store[j]).name)
}

/// A todo without markers depends on the names that the todo depends on.
pub proof fn lemma_plain_targets(a: Seq<TodoView>, t: TodoView, m: int)
    requires
        names_unmarked(a),
        is_defined(a, t),
        0 <= m < t.dependencies.len(),
    ensures
        target(plain(t), m) == target(t, m),
        plain(t).dependencies.len() == t.dependencies.len(),
{
    let name = target(t, m);
    lemma_find_from(a, name, 0);
    assert(a[find(a, name)].name == name);
    assert(!is_marked(name));
}

/// Attaching a child and taking the markers off come to the same in either
/// order.
pub proof fn lemma_plain_adopt(opts: Options, v: Visit, child: TodoView, owned: bool, pending: bool)
    ensures
        plain_visit(adopt(opts, v, child, owned, pending)) == adopt(
            opts,
            plain_visit(v),
            plain(child),
            owned,
            pending,
        ),
{
    let x = plain_visit(adopt(opts, v, child, owned, pending));
    let y = adopt(opts, plain_visit(v), plain(child), owned, pending);
    assert(x.node.children =~= y.node.children);
}

/// Leaving a todo and taking the markers off come to the same in either
/// order.
pub proof fn lemma_plain_leave(opts: Options, v: Visit, depth: nat)
    ensures
        match leave(opts, v, depth) {
            Ok(t) => leave(opts, plain_visit(v), depth) == Ok::<TodoView, crate::TodoErrorView>(
                plain(t),
            ),
            Err(e) => leave(opts, plain_visit(v), depth) == Err::<TodoView, crate::TodoErrorView>(
                e,
            ),
        },
{
    match leave(opts, v, depth) {
        Ok(t) => {
            let u = leave(opts, plain_visit(v), depth)->Ok_0;
            assert(u.children =~= plain(t).children);
            assert(u.dependencies =~= plain(t).dependencies);
        },
        Err(_) => {},
    }
}

/// The walk goes by names.
///
/// Let every dependency name a todo, in the store `a` and in the store `b`,
/// and let `b` hold under each of its names what `a` holds under it, with
/// the dependencies without markers. Then the walk through `b`, from a todo
/// without markers and with the flags of the same names set, does what the
/// walk through `a` does: it fails with the same error, or gives the same
/// todo, without markers, and sets the flags of the same names.
pub proof fn lemma_walk_by_names(
    a: Seq<TodoView>,
    b: Seq<TodoView>,
    opts: Options,
    v: Visit,
    i: int,
    sa: Walk,
    sb: Walk,
    depth: nat,
)
    requires
        0 <= i,
        names_unmarked(a),
        all_defined(a),
        all_defined(b),
        is_defined(a, v.node),
        is_defined(b, plain(v.node)),
        holds_plain(a, b),
        same_flags(a, b, sa, sb),
    ensures
        match walk(a, opts, v, i, sa, depth) {
            Ok((w, after)) => {
                &&& walk(b, opts, plain_visit(v), i, sb, depth) is Ok
                &&& walk(b, opts, plain_visit(v), i, sb, depth)->Ok_0.0 == plain_visit(w)
                &&& same_flags(a, b, after, walk(b, opts, plain_visit(v), i, sb, depth)->Ok_0.1)
            },
            Err(e) => walk(b, opts, plain_visit(v), i, sb, depth) == Err::<
                (Visit, Walk),
                crate::TodoErrorView,
            >(e),
        },
    decreases unvisited(sa.visited), v.node.dependencies.len() - i,
{
    let pv = plain_visit(v);
    assert(pv.node.dependencies.len() == v.node.dependencies.len());
    if i < v.node.dependencies.len() {
        let name = bare_name(v.node.dependencies[i]);
        lemma_plain_targets(a, v.node, i);
        assert(target(v.node, i) == name);
        assert(target(pv.node, i) == name);
        let da = find(a, name);
        let db = find(b, name);
        lemma_find_from(a, name, 0);
        lemma_find_from(b, name, 0);
        assert(0 <= db < b.len());
        assert(fresh(b[db]) == plain(fresh(a[da])));
        assert(b[db].status == a[da].status);
        if !sa.path[da] {
            let pending = a[da].status != Status::Completed;
            let seen = Visit {
                pending: if pending {
                    v.pending.push(name)
                } else {
                    v.pending
                },
                ..v
            };
            let pseen = Visit {
                pending: if pending {
                    pv.pending.push(name)
                } else {
                    pv.pending
                },
                ..pv
            };
            assert(pseen == plain_visit(seen));
            if in_scope(opts.limit, depth) && !sa.visited[da] {
                let ia = Walk {
                    visited: sa.visited.update(da, true),
                    path: sa.path.update(da, true),
                    ..sa
                };
                let ib = Walk {
                    visited: sb.visited.update(db, true),
                    path: sb.path.update(db, true),
                    ..sb
                };
                let (ca, ea) = enter(fresh(a[da]), opts, ia);
                let (cb, eb) = enter(fresh(b[db]), opts, ib);
                assert(cb == plain_visit(ca));
                lemma_unvisited_update(sa.visited, da);
                lemma_unvisited_update(sb.visited, db);
                assert(same_flags(a, b, ea, eb)) by {
                    assert forall|n: Seq<u8>| 0 <= #[trigger] find(b, n) < b.len() implies eb.visited[find(
                        b,
                        n,
                    )] == ea.visited[find(a, n)] && eb.path[find(b, n)] == ea.path[find(a, n)] by {
                        lemma_find_from(a, n, 0);
                        lemma_find_from(b, n, 0);
                    }
                }
                assert(is_defined(a, ca.node)) by {
                    assert(is_defined(a, a[da]));
                    assert forall|m: int| 0 <= m < ca.node.dependencies.len() implies 0 <= find(
                        a,
                        #[trigger] target(ca.node, m),
                    ) < a.len() by {
                        assert(target(ca.node, m) == target(a[da], m));
                    }
                }
                assert(is_defined(b, plain(ca.node))) by {
                    assert(is_defined(b, b[db]));
                    assert forall|m: int| 0 <= m < cb.node.dependencies.len() implies 0 <= find(
                        b,
                        #[trigger] target(cb.node, m),
                    ) < b.len() by {
                        assert(target(cb.node, m) == target(b[db], m));
                    }
                }
                lemma_walk_by_names(a, b, opts, ca, 0, ea, eb, depth + 1);
                lemma_walk_visits(a, opts, ca, 0, ea, depth + 1);
                lemma_walk_visits(b, opts, cb, 0, eb, depth + 1);
                match walk(a, opts, ca, 0, ea, depth + 1) {
                    Ok((ca2, fa)) => {
                        let (cb2, fb) = walk(b, opts, cb, 0, eb, depth + 1)->Ok_0;
                        lemma_plain_leave(opts, ca2, depth + 1);
                        match leave(opts, ca2, depth + 1) {
                            Ok(child) => {
                                let na = Walk { path: fa.path.update(da, false), ..fa };
                                let nb = Walk { path: fb.path.update(db, false), ..fb };
                                let ga = adopt(opts, seen, child, ca2.owned, pending);
                                let gb = adopt(opts, pseen, plain(child), cb2.owned, pending);
                                lemma_plain_adopt(opts, seen, child, ca2.owned, pending);
                                assert(gb == plain_visit(ga));
                                assert(same_flags(a, b, na, nb)) by {
                                    assert forall|n: Seq<u8>|
                                        0 <= #[trigger] find(b, n) < b.len() implies nb.visited[find(
                                        b,
                                        n,
                                    )] == na.visited[find(a, n)] && nb.path[find(b, n)]
                                        == na.path[find(a, n)] by {
                                        lemma_find_from(a, n, 0);
                                        lemma_find_from(b, n, 0);
                                    }
                                }
                                assert(is_defined(a, ga.node)) by {
                                    assert forall|m: int|
                                        0 <= m < ga.node.dependencies.len() implies 0 <= find(
                                        a,
                                        #[trigger] target(ga.node, m),
                                    ) < a.len() by {
                                        assert(target(ga.node, m) == target(v.node, m));
                                    }
                                }
                                assert(is_defined(b, plain(ga.node))) by {
                                    assert forall|m: int|
                                        0 <= m < gb.node.dependencies.len() implies 0 <= find(
                                        b,
                                        #[trigger] target(gb.node, m),
                                    ) < b.len() by {
                                        assert(target(gb.node, m) == target(pv.node, m));
                                    }
                                }
                                lemma_walk_by_names(a, b, opts, ga, i + 1, na, nb, depth);
                            },
                            Err(_) => {},
                        }
                    },
                    Err(_) => {},
                }
            } else {
                assert(is_defined(a, seen.node));
                assert(is_defined(b, plain(seen.node))) by {
                    assert forall|m: int| 0 <= m < pseen.node.dependencies.len() implies 0 <= find(
                        b,
                        #[trigger] target(pseen.node, m),
                    ) < b.len() by {
                        assert(target(pseen.node, m) == target(pv.node, m));
                    }
                }
                lemma_walk_by_names(a, b, opts, seen, i + 1, sa, sb, depth);
            }
        }
    }
}

/// Resolving goes by names.
///
/// Let every dependency name a todo, in the store `a` and in the store `b`,
/// and let `b` hold under each of its names what `a` holds under it, with
/// the dependencies without markers. Then resolving `t` without markers
/// from `b`, with the flags of the same names set, fails with the error
/// with which resolving `t` from `a` fails, or gives the same tree, without
/// markers, and sets the flags of the same names.
pub proof fn law_resolving_by_names(
    a: Seq<TodoView>,
    b: Seq<TodoView>,
    opts: Options,
    t: TodoView,
    sa: Walk,
    sb: Walk,
    depth: nat,
)
    requires
        names_unmarked(a),
        all_defined(a),
        all_defined(b),
        is_defined(a, t),
        is_defined(b, plain(t)),
        holds_plain(a, b),
        same_flags(a, b, sa, sb),
    ensures
        match resolved(a, opts, t, sa, depth) {
            Ok((node, owned, after)) => {
                &&& resolved(b, opts, plain(t), sb, depth) is Ok
                &&& resolved(b, opts, plain(t), sb, depth)->Ok_0.0 == plain(node)
                &&& resolved(b, opts, plain(t), sb, depth)->Ok_0.1 == owned
                &&& same_flags(a, b, after, resolved(b, opts, plain(t), sb, depth)->Ok_0.2)
            },
            Err(e) => resolved(b, opts, plain(t), sb, depth) == Err::<
                (TodoView, bool, Walk),
                crate::TodoErrorView,
            >(e),
        },
{
    let (v, ea) = enter(t, opts, sa);
    let (pv, eb) = enter(plain(t), opts, sb);
    assert(pv == plain_visit(v));
    assert(same_flags(a, b, ea, eb));
    lemma_walk_by_names(a, b, opts, v, 0, ea, eb, depth);
    match walk(a, opts, v, 0, ea, depth) {
        Ok((w, _)) => {
            lemma_plain_leave(opts, w, depth);
        },
        Err(_) => {},
    }
}

/// What the children of a todo need does not depend on markers.
pub proof fn lemma_plain_extent_below(t: TodoView, depth: nat, n: int)
    ensures
        extent_below(plain(t), depth, n) == extent_below(t, depth, n),
    decreases t, n,
{
    if 0 < n <= t.children.len() {
        lemma_plain_extent_below(t, depth, n - 1);
        lemma_plain_extent(t.children[n - 1], depth + 1);
        assert(plain(t).children[n - 1] == plain(t.children[n - 1]));
    }
}

/// What a todo needs does not depend on markers.
pub proof fn lemma_plain_extent(t: TodoView, depth: nat)
    ensures
        extent(plain(t), depth) == extent(t, depth),
    decreases t, t.children.len() + 1,
{
    lemma_plain_extent_below(t, depth, t.children.len() as int);
}

/// Laying a tree out and taking the markers off come to the same in either
/// order.
pub proof fn lemma_plain_laid_out(t: TodoView, known: Extent, depth: nat, screen_width: nat)
    ensures
        match laid_out(t, known, depth, screen_width) {
            Ok((shown, widths)) => laid_out(plain(t), known, depth, screen_width) == Ok::<
                (TodoView, Extent),
                crate::TodoErrorView,
            >((plain(shown), widths)),
            Err(e) => laid_out(plain(t), known, depth, screen_width) == Err::<
                (TodoView, Extent),
                crate::TodoErrorView,
            >(e),
        },
{
    lemma_plain_extent_below(t, depth, t.children.len() as int);
    let below = known.join(extent_below(t, depth, t.children.len() as int));
    let x = titled(plain(t), below);
    let y = plain(titled(t, below));
    assert(x.children =~= y.children);
    assert(x.dependencies =~= y.dependencies);
    assert(x == y);
}

/// Building a tree goes by names: under what [`law_resolving_by_names`]
/// asks, building the tree below `t` without markers from `b` fails as
/// building it below `t` from `a` fails, or gives the same tree, without
/// markers, with the same widths.
pub proof fn law_building_by_names(
    a: Seq<TodoView>,
    b: Seq<TodoView>,
    opts: Options,
    t: TodoView,
    sa: Walk,
    sb: Walk,
    depth: nat,
    known: Extent,
    screen_width: nat,
)
    requires
        names_unmarked(a),
        all_defined(a),
        all_defined(b),
        is_defined(a, t),
        is_defined(b, plain(t)),
        holds_plain(a, b),
        same_flags(a, b, sa, sb),
    ensures
        match built(a, opts, t, sa, depth, known, screen_width) {
            Ok((node, owned, after, widths)) => {
                &&& built(b, opts, plain(t), sb, depth, known, screen_width) is Ok
                &&& built(b, opts, plain(t), sb, depth, known, screen_width)->Ok_0.0 == plain(node)
                &&& built(b, opts, plain(t), sb, depth, known, screen_width)->Ok_0.1 == owned
                &&& same_flags(
                    a,
                    b,
                    after,
                    built(b, opts, plain(t), sb, depth, known, screen_width)->Ok_0.2,
                )
                &&& built(b, opts, plain(t), sb, depth, known, screen_width)->Ok_0.3 == widths
            },
            Err(e) => built(b, opts, plain(t), sb, depth, known, screen_width) == Err::<
                (TodoView, bool, Walk, Extent),
                crate::TodoErrorView,
            >(e),
        },
{
    law_resolving_by_names(a, b, opts, t, sa, sb, depth);
    match resolved(a, opts, t, sa, depth) {
        Ok((node, _, _)) => {
            lemma_plain_laid_out(node, known, 0, screen_width);
        },
        Err(_) => {},
    }
}

} // verus!
