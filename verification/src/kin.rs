//! Who depends on whom in a tree: every todo stands below a todo that
//! depends on it, and the todos that no todo depends on stand below the
//! root.
use crate::Status;
use crate::assemble::{is_needed, target, tops_from};
use crate::laws::{lemma_find_from, lemma_walk_visits, shown, shown_from, uncut, unpruned};
use crate::resolve::{
    adopt, enter, find, fresh, in_scope, leave, lemma_unvisited_update, unvisited, walk, Options,
    Visit, Walk,
};
use crate::todo::{bare_name, below, below_from, distinct_names, TodoView};
use vstd::prelude::*;

verus! {

/// Whether some dependency of `t` names `name`.
pub open spec fn names(t: TodoView, name: Seq<u8>) -> bool {
    exists|m: int| 0 <= m < t.dependencies.len() && #[trigger] target(t, m) == name
}

/// Whether every todo in the tree of `t` stands below a todo that depends
/// on it.
pub open spec fn is_family(t: TodoView) -> bool
    decreases t,
{
    forall|k: int|
        0 <= k < t.children.len() ==> names(t, (#[trigger] t.children[k]).name) && is_family(
            t.children[k],
        )
}

/// Whether every todo visited between `before` and `after` is named by a
/// dependency of `t` or of a todo of the store.
pub open spec fn visits_needed(
    store: Seq<TodoView>,
    t: TodoView,
    before: Seq<bool>,
    after: Seq<bool>,
) -> bool {
    forall|j: int|
        0 <= j < store.len() && !before[j] && #[trigger] after[j] ==> names(t, store[j].name)
            || is_needed(store, store[j].name)
}

/// A walk without depth limit attaches a todo below a todo that depends on
/// it, and visits only what a todo depends on.
pub proof fn lemma_walk_kin(
    store: Seq<TodoView>,
    opts: Options,
    v: Visit,
    i: int,
    st: Walk,
    depth: nat,
)
    requires
        opts.limit == 0,
        st.visited.len() == store.len(),
        st.path.len() == store.len(),
        0 <= i,
        is_family(v.node),
    ensures
        match walk(store, opts, v, i, st, depth) {
            Ok((w, after)) => is_family(w.node) && visits_needed(
                store,
                v.node,
                st.visited,
                after.visited,
            ) && (v.owned ==> w.owned),
            Err(_) => true,
        },
    decreases unvisited(st.visited), v.node.dependencies.len() - i,
{
    if i < v.node.dependencies.len() {
        let name = bare_name(v.node.dependencies[i]);
        let d = find(store, name);
        lemma_find_from(store, name, 0);
        assert(target(v.node, i) == name);
        if d < store.len() && !st.path[d] {
            let pending = store[d].status != Status::Completed;
            let seen = Visit {
                pending: if pending {
                    v.pending.push(name)
                } else {
                    v.pending
                },
                ..v
            };
            if in_scope(opts.limit, depth) && !st.visited[d] {
                let inside = Walk {
                    visited: st.visited.update(d, true),
                    path: st.path.update(d, true),
                    ..st
                };
                let (c, entered) = enter(fresh(store[d]), opts, inside);
                lemma_unvisited_update(st.visited, d);
                assert(is_family(c.node));
                lemma_walk_kin(store, opts, c, 0, entered, depth + 1);
                lemma_walk_visits(store, opts, c, 0, entered, depth + 1);
                match walk(store, opts, c, 0, entered, depth + 1) {
                    Ok((c2, after)) => {
                        match leave(opts, c2, depth + 1) {
                            Ok(child) => {
                                let next = Walk { path: after.path.update(d, false), ..after };
                                let grown = adopt(opts, seen, child, c2.owned, pending);
                                assert(child.name == name);
                                assert(is_family(child)) by {
                                    assert forall|k: int|
                                        0 <= k < child.children.len() implies names(
                                        child,
                                        (#[trigger] child.children[k]).name,
                                    ) && is_family(child.children[k]) by {
                                        let x = c2.node.children[k].name;
                                        assert(names(c2.node, x));
                                        let m = choose|m: int|
                                            0 <= m < c2.node.dependencies.len() && #[trigger] target(
                                                c2.node,
                                                m,
                                            ) == x;
                                        assert(target(child, m) == x);
                                    }
                                }
                                assert(is_family(grown.node)) by {
                                    assert forall|k: int|
                                        0 <= k < grown.node.children.len() implies names(
                                        grown.node,
                                        (#[trigger] grown.node.children[k]).name,
                                    ) && is_family(grown.node.children[k]) by {
                                        if k < v.node.children.len() {
                                            let x = v.node.children[k].name;
                                            assert(names(v.node, x));
                                            let m = choose|m: int|
                                                0 <= m < v.node.dependencies.len()
                                                    && #[trigger] target(v.node, m) == x;
                                            assert(target(grown.node, m) == x);
                                        } else {
                                            assert(target(grown.node, i) == name);
                                        }
                                    }
                                }
                                lemma_walk_kin(store, opts, grown, i + 1, next, depth);
                                match walk(store, opts, grown, i + 1, next, depth) {
                                    Ok((w, last)) => {
                                        assert forall|j: int|
                                            0 <= j < store.len() && !st.visited[j]
                                                && #[trigger] last.visited[j] implies names(
                                            v.node,
                                            store[j].name,
                                        ) || is_needed(store, store[j].name) by {
                                            if next.visited[j] {
                                                if j == d {
                                                    assert(store[d].name == target(v.node, i));
                                                } else {
                                                    assert(!entered.visited[j]);
                                                    assert(after.visited[j]);
                                                    if names(c.node, store[j].name) {
                                                        let m = choose|m: int|
                                                            0 <= m < c.node.dependencies.len()
                                                                && #[trigger] target(c.node, m)
                                                                == store[j].name;
                                                        assert(target(store[d], m)
                                                            == store[j].name);
                                                    }
                                                }
                                            } else {
                                                if names(grown.node, store[j].name) {
                                                    let m = choose|m: int|
                                                        0 <= m < grown.node.dependencies.len()
                                                            && #[trigger] target(grown.node, m)
                                                            == store[j].name;
                                                    assert(target(v.node, m) == store[j].name);
                                                }
                                            }
                                        }
                                    },
                                    Err(_) => {},
                                }
                            },
                            Err(_) => {},
                        }
                    },
                    Err(_) => {},
                }
            } else {
                assert(is_family(seen.node));
                lemma_walk_kin(store, opts, seen, i + 1, st, depth);
                match walk(store, opts, seen, i + 1, st, depth) {
                    Ok((w, last)) => {
                        assert forall|j: int|
                            0 <= j < store.len() && !st.visited[j]
                                && #[trigger] last.visited[j] implies names(v.node, store[j].name)
                            || is_needed(store, store[j].name) by {
                            if names(seen.node, store[j].name) {
                                let m = choose|m: int|
                                    0 <= m < seen.node.dependencies.len() && #[trigger] target(
                                        seen.node,
                                        m,
                                    ) == store[j].name;
                                assert(target(v.node, m) == store[j].name);
                            }
                        }
                    },
                    Err(_) => {},
                }
            }
        }
    }
}

/// Whether the dependencies of `t` name todos of the store that no todo
/// depends on, each once.
pub open spec fn needs_tops(store: Seq<TodoView>, t: TodoView) -> bool {
    &&& forall|m: int|
        0 <= m < t.dependencies.len() ==> !is_needed(store, #[trigger] target(t, m))
    &&& forall|m: int, n: int|
        0 <= m < n < t.dependencies.len() ==> #[trigger] target(t, m) != #[trigger] target(t, n)
}

/// Whether the first `i` dependencies of `t` have each given `t` a child of
/// the name, in their order, and every todo visited is one of these or
/// one that a todo depends on.
pub open spec fn has_adopted(store: Seq<TodoView>, t: TodoView, i: int, visited: Seq<bool>) -> bool {
    &&& t.children.len() == i
    &&& forall|m: int| 0 <= m < i ==> (#[trigger] t.children[m]).name == target(t, m)
    &&& forall|j: int|
        0 <= j < store.len() && #[trigger] visited[j] ==> is_needed(store, store[j].name) || (
        exists|m: int| 0 <= m < i && #[trigger] target(t, m) == store[j].name)
}

/// A walk that leaves nothing out attaches, below a todo that depends on
/// todos that no todo depends on, each of them, in the order of the
/// dependencies.
pub proof fn lemma_walk_adopts_tops(
    store: Seq<TodoView>,
    opts: Options,
    v: Visit,
    i: int,
    st: Walk,
    depth: nat,
)
    requires
        unpruned(opts),
        st.visited.len() == store.len(),
        st.path.len() == store.len(),
        0 <= i <= v.node.dependencies.len(),
        needs_tops(store, v.node),
        has_adopted(store, v.node, i, st.visited),
    ensures
        match walk(store, opts, v, i, st, depth) {
            Ok((w, after)) => has_adopted(
                store,
                w.node,
                v.node.dependencies.len() as int,
                after.visited,
            ) && w.node.dependencies == v.node.dependencies,
            Err(_) => true,
        },
    decreases v.node.dependencies.len() - i,
{
    if i < v.node.dependencies.len() {
        let name = bare_name(v.node.dependencies[i]);
        let d = find(store, name);
        lemma_find_from(store, name, 0);
        assert(target(v.node, i) == name);
        if d < store.len() && !st.path[d] {
            let pending = store[d].status != Status::Completed;
            let seen = Visit {
                pending: if pending {
                    v.pending.push(name)
                } else {
                    v.pending
                },
                ..v
            };
            assert(!st.visited[d]) by {
                if st.visited[d] {
                    assert(!is_needed(store, target(v.node, i)));
                    let m = choose|m: int| 0 <= m < i && #[trigger] target(v.node, m) == store[d].name;
                    assert(target(v.node, m) != target(v.node, i));
                }
            }
            let inside = Walk {
                visited: st.visited.update(d, true),
                path: st.path.update(d, true),
                ..st
            };
            let (c, entered) = enter(fresh(store[d]), opts, inside);
            lemma_unvisited_update(st.visited, d);
            assert(is_family(c.node));
            lemma_walk_kin(store, opts, c, 0, entered, depth + 1);
            lemma_walk_visits(store, opts, c, 0, entered, depth + 1);
            match walk(store, opts, c, 0, entered, depth + 1) {
                Ok((c2, after)) => {
                    match leave(opts, c2, depth + 1) {
                        Ok(child) => {
                            let next = Walk { path: after.path.update(d, false), ..after };
                            let grown = adopt(opts, seen, child, c2.owned, pending);
                            assert(child.name == name);
                            assert(c2.owned);
                            assert(grown.node.children == v.node.children.push(child));
                            assert(needs_tops(store, grown.node)) by {
                                assert forall|m: int|
                                    0 <= m < grown.node.dependencies.len() implies !is_needed(
                                    store,
                                    #[trigger] target(grown.node, m),
                                ) by {
                                    assert(target(grown.node, m) == target(v.node, m));
                                }
                                assert forall|m: int, n: int|
                                    0 <= m < n < grown.node.dependencies.len() implies #[trigger] target(
                                    grown.node,
                                    m,
                                ) != #[trigger] target(grown.node, n) by {
                                    assert(target(grown.node, m) == target(v.node, m));
                                    assert(target(grown.node, n) == target(v.node, n));
                                }
                            }
                            assert(has_adopted(store, grown.node, i + 1, next.visited)) by {
                                assert forall|m: int| 0 <= m < i + 1 implies (
                                #[trigger] grown.node.children[m]).name == target(
                                    grown.node,
                                    m,
                                ) by {
                                    if m < i {
                                        assert(grown.node.children[m] == v.node.children[m]);
                                        assert(target(grown.node, m) == target(v.node, m));
                                    }
                                }
                                assert forall|j: int|
                                    0 <= j < store.len() && #[trigger] next.visited[j] implies is_needed(
                                    store,
                                    store[j].name,
                                ) || (exists|m: int|
                                    0 <= m < i + 1 && #[trigger] target(grown.node, m)
                                        == store[j].name) by {
                                    if j == d {
                                        assert(target(grown.node, i) == store[j].name);
                                    } else if st.visited[j] {
                                        if !is_needed(store, store[j].name) {
                                            let m = choose|m: int|
                                                0 <= m < i && #[trigger] target(v.node, m)
                                                    == store[j].name;
                                            assert(target(grown.node, m) == store[j].name);
                                        }
                                    } else {
                                        assert(!entered.visited[j]);
                                        assert(after.visited[j]);
                                        if names(c.node, store[j].name) {
                                            let m = choose|m: int|
                                                0 <= m < c.node.dependencies.len()
                                                    && #[trigger] target(c.node, m)
                                                    == store[j].name;
                                            assert(target(store[d], m) == store[j].name);
                                        }
                                    }
                                }
                            }
                            lemma_walk_adopts_tops(store, opts, grown, i + 1, next, depth);
                        },
                        Err(_) => {},
                    }
                },
                Err(_) => {},
            }
        }
    } else {
        assert(i == v.node.dependencies.len());
    }
}

/// The names among `names` from the `k`-th on that no todo of the store
/// depends on, in their order.
pub open spec fn unneeded(store: Seq<TodoView>, names: Seq<Seq<u8>>, k: int) -> Seq<Seq<u8>>
    decreases names.len() - k,
{
    if k < 0 || k >= names.len() {
        Seq::empty()
    } else {
        (if is_needed(store, names[k]) {
            Seq::empty()
        } else {
            seq![names[k]]
        }) + unneeded(store, names, k + 1)
    }
}

/// The names of the todos of a store.
pub open spec fn names_of(store: Seq<TodoView>) -> Seq<Seq<u8>> {
    Seq::new(store.len(), |j: int| store[j].name)
}

/// The todos that no todo depends on are those of which no todo needs the
/// name.
pub proof fn lemma_tops_unneeded(store: Seq<TodoView>, k: int)
    ensures
        tops_from(store, k) == unneeded(store, names_of(store), k),
    decreases store.len() - k,
{
    if 0 <= k < store.len() {
        lemma_tops_unneeded(store, k + 1);
    }
}

/// Behind other names, the names that no todo depends on are the same.
pub proof fn lemma_unneeded_shift(
    store: Seq<TodoView>,
    x: Seq<Seq<u8>>,
    y: Seq<Seq<u8>>,
    j: int,
)
    requires
        0 <= j,
    ensures
        unneeded(store, x + y, x.len() + j) == unneeded(store, y, j),
    decreases y.len() - j,
{
    if j < y.len() {
        lemma_unneeded_shift(store, x, y, j + 1);
        assert((x + y)[x.len() + j] == y[j]);
    }
}

/// The names that no todo depends on, of names put together.
pub proof fn lemma_unneeded_add(store: Seq<TodoView>, x: Seq<Seq<u8>>, y: Seq<Seq<u8>>, k: int)
    requires
        0 <= k <= x.len(),
    ensures
        unneeded(store, x + y, k) == unneeded(store, x, k) + unneeded(store, y, 0),
    decreases x.len() - k,
{
    if k < x.len() {
        lemma_unneeded_add(store, x, y, k + 1);
        assert((x + y)[k] == x[k]);
        let head = if is_needed(store, x[k]) {
            Seq::<Seq<u8>>::empty()
        } else {
            seq![x[k]]
        };
        assert(head + (unneeded(store, x, k + 1) + unneeded(store, y, 0)) =~= (head + unneeded(
            store,
            x,
            k + 1,
        )) + unneeded(store, y, 0));
    } else {
        lemma_unneeded_shift(store, x, y, 0);
        assert(unneeded(store, x, k) + unneeded(store, y, 0) =~= unneeded(store, y, 0));
    }
}

/// Where some todo depends on each name, none is left.
pub proof fn lemma_all_needed(store: Seq<TodoView>, names: Seq<Seq<u8>>, k: int)
    requires
        forall|j: int| 0 <= j < names.len() ==> is_needed(store, #[trigger] names[j]),
    ensures
        unneeded(store, names, k) == Seq::<Seq<u8>>::empty(),
    decreases names.len() - k,
{
    if 0 <= k < names.len() {
        lemma_all_needed(store, names, k + 1);
        assert(is_needed(store, names[k]));
    }
}

/// The names of the children of `t` from the `k`-th on, cut marks aside.
pub open spec fn child_names(t: TodoView, k: int) -> Seq<Seq<u8>> {
    Seq::new((t.children.len() - k) as nat, |q: int| uncut(t.children[k + q].name))
}

/// Where no todo depends on a child of `t`, and some todo on every todo
/// below a child, the names below `t` that no todo depends on are those of
/// the children.
pub proof fn lemma_unneeded_shown(store: Seq<TodoView>, t: TodoView, k: int)
    requires
        0 <= k <= t.children.len(),
        forall|q: int|
            0 <= q < t.children.len() ==> !is_needed(
                store,
                uncut((#[trigger] t.children[q]).name),
            ),
        forall|q: int, j: int|
            0 <= q < t.children.len() && 0 <= j < shown(t.children[q]).len() ==> is_needed(
                store,
                #[trigger] shown(t.children[q])[j],
            ),
    ensures
        unneeded(store, shown_from(t, k), 0) == child_names(t, k),
    decreases t.children.len() - k,
{
    if k < t.children.len() {
        let c = t.children[k];
        let head = seq![uncut(c.name)];
        let rest = shown_from(t, k + 1);
        lemma_unneeded_shown(store, t, k + 1);
        assert(shown_from(t, k) == head + shown(c) + rest);
        lemma_unneeded_add(store, head + shown(c), rest, 0);
        lemma_unneeded_add(store, head, shown(c), 0);
        assert forall|j: int| 0 <= j < shown(c).len() implies is_needed(
            store,
            #[trigger] shown(c)[j],
        ) by {
            assert(is_needed(store, shown(t.children[k])[j]));
        }
        lemma_all_needed(store, shown(c), 0);
        assert(!is_needed(store, uncut(t.children[k].name)));
        assert(unneeded(store, head, 0) =~= head) by {
            assert(unneeded(store, head, 1) =~= Seq::<Seq<u8>>::empty());
        }
        assert(child_names(t, k) =~= head + child_names(t, k + 1));
        assert(head + Seq::<Seq<u8>>::empty() + child_names(t, k + 1) =~= head + child_names(
            t,
            k + 1,
        ));
    } else {
        assert(child_names(t, k) =~= Seq::<Seq<u8>>::empty());
    }
}

/// Every child of `t` from the `k`-th on, and every todo below it, is among
/// the todos below `t` from the `k`-th child on.
pub proof fn lemma_below_holds(t: TodoView, k: int, q: int)
    requires
        0 <= k <= q < t.children.len(),
    ensures
        below_from(t, k).contains(t.children[q]),
        forall|j: int|
            0 <= j < below(t.children[q]).len() ==> below_from(t, k).contains(
                #[trigger] below(t.children[q])[j],
            ),
    decreases q - k,
{
    let c = t.children[k];
    let all = below_from(t, k);
    assert(all == seq![c] + below(c) + below_from(t, k + 1));
    if q == k {
        assert(all[0] == c);
        assert forall|j: int| 0 <= j < below(c).len() implies all.contains(
            #[trigger] below(c)[j],
        ) by {
            assert(all[1 + j] == below(c)[j]);
        }
    } else {
        lemma_below_holds(t, k + 1, q);
        let rest = below_from(t, k + 1);
        let x = t.children[q];
        let i = choose|i: int| 0 <= i < rest.len() && rest[i] == x;
        assert(all[1 + below(c).len() + i] == x);
        assert forall|j: int| 0 <= j < below(x).len() implies all.contains(
            #[trigger] below(x)[j],
        ) by {
            let i = choose|i: int| 0 <= i < rest.len() && rest[i] == below(x)[j];
            assert(all[1 + below(c).len() + i] == below(x)[j]);
        }
    }
}

/// In a family, some todo among `whole` depends on every todo below the
/// children of `t` from the `k`-th on, or `t` does, if `whole` holds them
/// all.
pub proof fn lemma_family_needed(whole: Seq<TodoView>, t: TodoView, k: int)
    requires
        is_family(t),
        0 <= k,
        forall|j: int| 0 <= j < below_from(t, k).len() ==> whole.contains(
            #[trigger] below_from(t, k)[j],
        ),
    ensures
        forall|j: int|
            0 <= j < below_from(t, k).len() ==> names(t, (#[trigger] below_from(t, k)[j]).name)
                || is_needed(whole, below_from(t, k)[j].name),
    decreases t, t.children.len() - k,
{
    if k < t.children.len() {
        let c = t.children[k];
        let all = below_from(t, k);
        let rest = below_from(t, k + 1);
        assert(all == seq![c] + below(c) + rest);
        assert(names(t, c.name) && is_family(c));
        assert forall|j: int| 0 <= j < below_from(c, 0).len() implies whole.contains(
            #[trigger] below_from(c, 0)[j],
        ) by {
            assert(all[1 + j] == below(c)[j]);
        }
        assert forall|j: int| 0 <= j < rest.len() implies whole.contains(#[trigger] rest[j]) by {
            assert(all[1 + below(c).len() + j] == rest[j]);
        }
        lemma_family_needed(whole, c, 0);
        lemma_family_needed(whole, t, k + 1);
        assert(all[0] == c);
        assert(whole.contains(c));
        let at = choose|at: int| 0 <= at < whole.len() && whole[at] == c;
        assert forall|j: int| 0 <= j < all.len() implies names(t, (#[trigger] all[j]).name)
            || is_needed(whole, all[j].name) by {
            if j == 0 {
            } else if j <= below(c).len() {
                let n = below_from(c, 0)[j - 1];
                assert(all[j] == n);
                if names(c, n.name) {
                    let m = choose|m: int|
                        0 <= m < c.dependencies.len() && #[trigger] target(c, m) == n.name;
                    assert(target(whole[at], m) == n.name);
                }
            } else {
                assert(all[j] == rest[j - 1 - below(c).len()]);
            }
        }
    }
}

/// The todos that no todo depends on are todos of the store from the `k`-th
/// on, each named once.
pub proof fn lemma_tops(store: Seq<TodoView>, k: int)
    requires
        distinct_names(store),
        0 <= k,
    ensures
        forall|m: int|
            0 <= m < tops_from(store, k).len() ==> !is_needed(
                store,
                #[trigger] tops_from(store, k)[m],
            ) && exists|x: int|
                k <= x < store.len() && (#[trigger] store[x]).name == tops_from(store, k)[m],
        forall|m: int, n: int|
            0 <= m < n < tops_from(store, k).len() ==> #[trigger] tops_from(store, k)[m]
                != #[trigger] tops_from(store, k)[n],
    decreases store.len() - k,
{
    if k < store.len() {
        lemma_tops(store, k + 1);
        let all = tops_from(store, k);
        let rest = tops_from(store, k + 1);
        if is_needed(store, store[k].name) {
            assert(all =~= rest);
            assert forall|m: int| 0 <= m < all.len() implies !is_needed(store, #[trigger] all[m])
                && exists|x: int| k <= x < store.len() && (#[trigger] store[x]).name == all[m] by {
                let x = choose|x: int|
                    k + 1 <= x < store.len() && (#[trigger] store[x]).name == rest[m];
                assert(store[x].name == all[m]);
            }
        } else {
            assert(all =~= seq![store[k].name] + rest);
            assert forall|m: int| 0 <= m < all.len() implies !is_needed(store, #[trigger] all[m])
                && exists|x: int| k <= x < store.len() && (#[trigger] store[x]).name == all[m] by {
                if m == 0 {
                    assert(store[k].name == all[0]);
                } else {
                    assert(all[m] == rest[m - 1]);
                    let x = choose|x: int|
                        k + 1 <= x < store.len() && (#[trigger] store[x]).name == rest[m - 1];
                    assert(store[x].name == all[m]);
                }
            }
            assert forall|m: int, n: int| 0 <= m < n < all.len() implies #[trigger] all[m]
                != #[trigger] all[n] by {
                assert(all[n] == rest[n - 1]);
                if m == 0 {
                    let x = choose|x: int|
                        k + 1 <= x < store.len() && (#[trigger] store[x]).name == rest[n - 1];
                    assert(store[k].name != store[x].name);
                } else {
                    assert(all[m] == rest[m - 1]);
                }
            }
        }
    }
}

} // verus!
