//! Resolving the dependency graph into a tree: a depth-first walk that
//! shows every todo once, below the first todo that reaches it.
use crate::{Status, TodoError, TodoErrorView};
use crate::bytes::{copy_all, equal, slice};
use crate::laws::{law_shown_once, lemma_shown_same, shown_once};
use crate::layout::{laid_out, lemma_laid_out_fits, measured, Extent};
use crate::render::fits;
use crate::text::{texts, SLASH};
use crate::todo::{
    bare, bare_name, distinct_names, lemma_view, root_name, views, Todo, TodoView,
};
use vstd::prelude::*;

verus! {

/// What the walk is asked to leave out.
pub ghost struct Options {
    /// Whether completed todos are left out of the tree.
    pub hide: bool,
    /// The depth limit: positive, nothing further than that many steps from
    /// the root is walked; negative, todos that many levels or fewer above
    /// the deepest todo below them are left out; zero, no limit.
    pub limit: int,
    /// The owners asked for; none means every owner.
    pub owners: Seq<Seq<u8>>,
}

/// What the walk knows of the todos it has met: one flag per todo of the
/// store for `visited` and `path`, one flag per owner asked for in `used`.
pub ghost struct Walk {
    /// The todos that the walk has entered.
    pub visited: Seq<bool>,
    /// The todos that the walk is inside of.
    pub path: Seq<bool>,
    /// The owners that a todo entered so far has.
    pub used: Seq<bool>,
}

/// A todo while the walk goes through its dependencies.
pub ghost struct Visit {
    /// The todo, with the children attached and the height reached so far.
    pub node: TodoView,
    /// The names of the dependencies met so far that are not completed.
    pub pending: Seq<Seq<u8>>,
    /// Whether the todo, or a todo entered below it, has an owner asked
    /// for.
    pub owned: bool,
}

/// The number of todos not visited.
pub open spec fn unvisited(visited: Seq<bool>) -> nat
    decreases visited.len(),
{
    if visited.len() == 0 {
        0
    } else {
        unvisited(visited.drop_last()) + if visited.last() {
            0nat
        } else {
            1nat
        }
    }
}

/// Index of the first todo at or after `i` with the name `name`
/// (`store.len()` when there is none).
pub open spec fn find_from(store: Seq<TodoView>, name: Seq<u8>, i: int) -> int
    decreases store.len() - i,
{
    if i < 0 || i >= store.len() || store[i].name == name {
        i
    } else {
        find_from(store, name, i + 1)
    }
}

/// Index of the todo named `name` in `store` (`store.len()` when there is
/// none).
pub open spec fn find(store: Seq<TodoView>, name: Seq<u8>) -> int {
    find_from(store, name, 0)
}

/// Whether a todo at `depth` looks into its dependencies under `limit`.
pub open spec fn in_scope(limit: int, depth: nat) -> bool {
    limit <= 0 || limit > depth
}

/// Whether a todo of height `height` is high enough above the deepest todo
/// below it to be shown under `limit`.
pub open spec fn survives(limit: int, height: nat) -> bool {
    limit >= 0 || height + limit >= 0
}

/// Whether the tree is cut off at a todo at `depth` and of `height`: the todo
/// stands at the positive limit, or at the height that a negative limit cuts
/// below.
pub open spec fn is_cut(limit: int, depth: nat, height: nat) -> bool {
    (limit > 0 && limit == depth) || (limit < 0 && height + limit == 0)
}

/// A todo as the store defines it, before the walk enters it: without
/// children and of height zero.
pub open spec fn fresh(t: TodoView) -> TodoView {
    TodoView { children: Seq::empty(), height: 0, ..t }
}

/// The owners asked for that are met once a todo owned by `owner` is
/// entered.
pub open spec fn used_with(owners: Seq<Seq<u8>>, used: Seq<bool>, owner: Seq<u8>) -> Seq<bool> {
    Seq::new(used.len(), |j: int| used[j] || (0 <= j < owners.len() && owners[j] == owner))
}

/// The walk and the todo as the walk enters the todo: the todo's owner
/// counts as met; the todo is owned if no owner is asked for or its own is.
pub open spec fn enter(t: TodoView, opts: Options, st: Walk) -> (Visit, Walk) {
    (
        Visit {
            node: t,
            pending: Seq::empty(),
            owned: opts.owners.len() == 0 || opts.owners.contains(t.owner),
        },
        Walk { used: used_with(opts.owners, st.used, t.owner), ..st },
    )
}

/// The todo as the walk leaves it at `depth`, once all its dependencies are
/// seen. A todo that is not completed becomes actionable when none of its
/// dependencies is pending; a completed todo with a pending dependency is an
/// error. Where the tree is cut off at a todo with dependencies, `/` is put
/// behind its name.
pub open spec fn leave(opts: Options, v: Visit, depth: nat) -> Result<TodoView, TodoErrorView> {
    let t = v.node;
    if v.pending.len() > 0 && t.status == Status::Completed {
        Err(TodoErrorView::UnfinishedDependencies { name: t.name, pending: v.pending })
    } else {
        Ok(
            TodoView {
                status: if v.pending.len() == 0 && t.status != Status::Completed {
                    Status::Actionable
                } else {
                    t.status
                },
                name: if t.name != root_name() && t.dependencies.len() > 0 && !(t.name.len() > 0
                    && t.name.last() == SLASH) && is_cut(opts.limit, depth, t.height) {
                    t.name.push(SLASH)
                } else {
                    t.name
                },
                ..t
            },
        )
    }
}

/// The todo `v` after one of its dependencies, `child`, has been walked and
/// left: it is at least one higher than the child, owned if the child is,
/// and has the child attached if the child is high enough for the limit,
/// is owned, and is pending or completed todos are not hidden.
pub open spec fn adopt(
    opts: Options,
    v: Visit,
    child: TodoView,
    owned: bool,
    pending: bool,
) -> Visit {
    Visit {
        node: TodoView {
            height: if child.height + 1 > v.node.height {
                child.height + 1
            } else {
                v.node.height
            },
            children: if survives(opts.limit, child.height) && (pending || !opts.hide) && owned {
                v.node.children.push(child)
            } else {
                v.node.children
            },
            ..v.node
        },
        owned: v.owned || owned,
        ..v
    }
}

/// The walk through the dependencies of `v` from the `i`-th on, `v` standing
/// at `depth`.
///
/// Each dependency names a todo of the store, without regard to completion
/// markers; one that names none is an error. A dependency that the walk is
/// inside of closes a loop, which is an error that names `v`. A
/// dependency that is not completed is pending. If `v` looks into its
/// dependencies at this depth and the dependency was not visited before, the
/// walk enters it, goes through its dependencies in turn, leaves it and lets
/// `v` adopt it.
///
/// The walk only ever adds to the todos visited (see
/// [`crate::laws::lemma_walk_visits`]), which is what the two comparisons of
/// `unvisited` say: they hold wherever the flags are as many as the todos,
/// and the definition says nothing of the walk where they do not.
pub open spec fn walk(
    store: Seq<TodoView>,
    opts: Options,
    v: Visit,
    i: int,
    st: Walk,
    depth: nat,
) -> Result<(Visit, Walk), TodoErrorView>
    decreases unvisited(st.visited), v.node.dependencies.len() - i,
{
    if i < 0 || i >= v.node.dependencies.len() {
        Ok((v, st))
    } else {
        let name = bare_name(v.node.dependencies[i]);
        let d = find(store, name);
        if d < 0 || d >= store.len() {
            Err(TodoErrorView::MissingTodo { name })
        } else if st.path[d] {
            Err(TodoErrorView::DependencyLoop { name: v.node.name })
        } else {
            let pending = store[d].status != Status::Completed;
            let seen = Visit {
                pending: if pending {
                    v.pending.push(name)
                } else {
                    v.pending
                },
                ..v
            };
            if in_scope(opts.limit, depth) && !st.visited[d] {
                let inside = Walk {
                    visited: st.visited.update(d, true),
                    path: st.path.update(d, true),
                    ..st
                };
                let (c, entered) = enter(fresh(store[d]), opts, inside);
                if unvisited(entered.visited) < unvisited(st.visited) {
                    match walk(store, opts, c, 0, entered, depth + 1) {
                        Err(e) => Err(e),
                        Ok((c, after)) => match leave(opts, c, depth + 1) {
                            Err(e) => Err(e),
                            Ok(child) => if unvisited(after.visited) <= unvisited(st.visited) {
                                walk(
                                    store,
                                    opts,
                                    adopt(opts, seen, child, c.owned, pending),
                                    i + 1,
                                    Walk { path: after.path.update(d, false), ..after },
                                    depth,
                                )
                            } else {
                                arbitrary()
                            },
                        },
                    }
                } else {
                    arbitrary()
                }
            } else {
                walk(store, opts, seen, i + 1, st, depth)
            }
        }
    }
}

/// The todo and the walk as they stand where the walk through the
/// dependencies of `v` from the `i`-th on stops: at its end, or at the
/// dependency that is refused. A todo entered below `v` that fails is not
/// adopted, and the flags stay as its own walk left them.
pub open spec fn halted(
    store: Seq<TodoView>,
    opts: Options,
    v: Visit,
    i: int,
    st: Walk,
    depth: nat,
) -> (TodoView, Walk)
    decreases unvisited(st.visited), v.node.dependencies.len() - i,
{
    if i < 0 || i >= v.node.dependencies.len() {
        (v.node, st)
    } else {
        let name = bare_name(v.node.dependencies[i]);
        let d = find(store, name);
        if d < 0 || d >= store.len() || st.path[d] {
            (v.node, st)
        } else {
            let pending = store[d].status != Status::Completed;
            let seen = Visit {
                pending: if pending {
                    v.pending.push(name)
                } else {
                    v.pending
                },
                ..v
            };
            if in_scope(opts.limit, depth) && !st.visited[d] {
                let inside = Walk {
                    visited: st.visited.update(d, true),
                    path: st.path.update(d, true),
                    ..st
                };
                let (c, entered) = enter(fresh(store[d]), opts, inside);
                if unvisited(entered.visited) < unvisited(st.visited) {
                    let below = halted(store, opts, c, 0, entered, depth + 1).1;
                    match walk(store, opts, c, 0, entered, depth + 1) {
                        Err(_) => (v.node, below),
                        Ok((c, after)) => match leave(opts, c, depth + 1) {
                            Err(_) => (v.node, below),
                            Ok(child) => if unvisited(after.visited) <= unvisited(st.visited) {
                                halted(
                                    store,
                                    opts,
                                    adopt(opts, seen, child, c.owned, pending),
                                    i + 1,
                                    Walk { path: after.path.update(d, false), ..after },
                                    depth,
                                )
                            } else {
                                arbitrary()
                            },
                        },
                    }
                } else {
                    arbitrary()
                }
            } else {
                halted(store, opts, seen, i + 1, st, depth)
            }
        }
    }
}

/// The todo `t` and the walk as resolving leaves them when it fails: the
/// todo with the children adopted before the failure, its status and name
/// as they were, and the flags as they stood at the failure.
pub open spec fn stopped(
    store: Seq<TodoView>,
    opts: Options,
    t: TodoView,
    st: Walk,
    depth: nat,
) -> (TodoView, Walk) {
    let (v, entered) = enter(t, opts, st);
    halted(store, opts, v, 0, entered, depth)
}

/// What resolving makes of the todo `t` at `depth`: the walk enters it, goes
/// through its dependencies and leaves it. The result holds the todo with
/// the tree below it, whether it is owned, and the walk as it stands then.
pub open spec fn resolved(
    store: Seq<TodoView>,
    opts: Options,
    t: TodoView,
    st: Walk,
    depth: nat,
) -> Result<(TodoView, bool, Walk), TodoErrorView> {
    let (v, entered) = enter(t, opts, st);
    match walk(store, opts, v, 0, entered, depth) {
        Err(e) => Err(e),
        Ok((v, after)) => match leave(opts, v, depth) {
            Err(e) => Err(e),
            Ok(node) => Ok((node, v.owned, after)),
        },
    }
}

/// What [`Todo::build_tree`] makes of the todo `t` at `depth`: the tree
/// resolved below it and, if `t` has the name of the root when it is handed
/// in, the widths of the columns of that tree on a screen of `screen_width`
/// columns (see [`laid_out`]). The
/// result holds the todo, whether it is owned, the walk as it stands then,
/// and the widths.
pub open spec fn built(
    store: Seq<TodoView>,
    opts: Options,
    t: TodoView,
    st: Walk,
    depth: nat,
    known: Extent,
    screen_width: nat,
) -> Result<(TodoView, bool, Walk, Extent), TodoErrorView> {
    match resolved(store, opts, t, st, depth) {
        Err(e) => Err(e),
        Ok((node, owned, after)) => if t.name == root_name() {
            match laid_out(node, known, 0, screen_width) {
                Err(e) => Err(e),
                Ok((shown, widths)) => Ok((shown, owned, after, widths)),
            }
        } else {
            Ok((node, owned, after, known))
        },
    }
}

/// What [`Todo::build_tree`] leaves of the todo `t`, of the walk and of the
/// widths when it fails. If resolving fails, the todo and the walk are as
/// that leaves them (see [`stopped`]) and the widths as they were. If the
/// tree is resolved and the screen is too narrow for it, the root is titled
/// and the widths are those that the tree needs.
pub open spec fn left_unbuilt(
    store: Seq<TodoView>,
    opts: Options,
    t: TodoView,
    st: Walk,
    depth: nat,
    known: Extent,
) -> (TodoView, Walk, Extent) {
    match resolved(store, opts, t, st, depth) {
        Err(_) => {
            let (node, after) = stopped(store, opts, t, st, depth);
            (node, after, known)
        },
        Ok((node, _, after)) => {
            let (shown, widths) = measured(node, known, 0);
            (shown, after, widths)
        },
    }
}

/// No more todos are unvisited than there are flags.
pub proof fn lemma_unvisited_bound(visited: Seq<bool>)
    ensures
        unvisited(visited) <= visited.len(),
    decreases visited.len(),
{
    if visited.len() > 0 {
        lemma_unvisited_bound(visited.drop_last());
    }
}

/// Visiting a todo that was not visited leaves one less unvisited.
pub proof fn lemma_unvisited_update(visited: Seq<bool>, d: int)
    requires
        0 <= d < visited.len(),
        !visited[d],
    ensures
        unvisited(visited.update(d, true)) + 1 == unvisited(visited),
    decreases visited.len(),
{
    let u = visited.update(d, true);
    if d == visited.len() - 1 {
        assert(u.drop_last() =~= visited.drop_last());
    } else {
        lemma_unvisited_update(visited.drop_last(), d);
        assert(u.drop_last() =~= visited.drop_last().update(d, true));
    }
}

/// Index of the todo named `name` in `map`, `map.len()` if there is none.
pub fn position(map: &Vec<Todo>, name: &[u8]) -> (r: usize)
    ensures
        r == find(views(map@), name@),
        r <= map.len(),
        r < map.len() ==> map@[r as int]@.name == name@,
{
    let mut i: usize = 0;
    while i < map.len()
        invariant
            i <= map.len(),
            find_from(views(map@), name@, i as int) == find(views(map@), name@),
        decreases map.len() - i,
    {
        proof {
            lemma_view(map@[i as int]);
        }
        if equal(map[i].name.as_slice(), name) {
            return i;
        }
        i = i + 1;
    }
    i
}

impl Todo {
    /// A copy of this todo as the store defines it: without children and of
    /// height zero.
    pub fn fresh_copy(&self) -> (r: Todo)
        ensures
            r@ == fresh(self@),
    {
        let r = Todo {
            name: slice(self.name.as_slice(), 0, self.name.len()),
            owner: slice(self.owner.as_slice(), 0, self.owner.len()),
            comment: copy_all(&self.comment),
            dependencies: copy_all(&self.dependencies),
            auxilaries: copy_all(&self.auxilaries),
            children: Vec::new(),
            height: 0,
            status: self.status,
        };
        proof {
            lemma_view(*self);
            lemma_view(r);
            assert(r.name@ =~= self.name@);
            assert(r.owner@ =~= self.owner@);
            assert(r@.children =~= Seq::<TodoView>::empty());
        }
        r
    }

    /// Marks the owners asked for that are `owner`, and says whether there
    /// is one.
    fn mark_owner(owners: &Vec<Vec<u8>>, used: &mut Vec<bool>, owner: &[u8]) -> (found: bool)
        requires
            old(used)@.len() == owners@.len(),
        ensures
            final(used)@ == used_with(texts(owners@), old(used)@, owner@),
            found == texts(owners@).contains(owner@),
    {
        let mut found = false;
        let mut j: usize = 0;
        while j < owners.len()
            invariant
                j <= owners.len(),
                used@.len() == owners@.len(),
                forall|k: int|
                    0 <= k < j ==> used@[k] == (old(used)@[k] || texts(owners@)[k] == owner@),
                forall|k: int| j <= k < owners@.len() ==> used@[k] == old(used)@[k],
                found ==> texts(owners@).contains(owner@),
                !found ==> forall|k: int| 0 <= k < j ==> texts(owners@)[k] != owner@,
            decreases owners.len() - j,
        {
            if equal(owners[j].as_slice(), owner) {
                used.set(j, true);
                found = true;
                assert(texts(owners@)[j as int] == owner@);
            }
            j = j + 1;
        }
        assert(used@ =~= used_with(texts(owners@), old(used)@, owner@));
        found
    }

    /// Resolves the tree below this todo, which stands at `depth`: enters
    /// the todo, walks through its dependencies, and leaves it.
    fn resolve(
        &mut self,
        visited: &mut Vec<bool>,
        map: &Vec<Todo>,
        path: &mut Vec<bool>,
        depth: usize,
        hide: bool,
        dpth_limit: i32,
        owners: &Vec<Vec<u8>>,
        used: &mut Vec<bool>,
    ) -> (r: Result<bool, TodoError>)
        requires
            old(visited)@.len() == map@.len(),
            old(path)@.len() == map@.len(),
            old(used)@.len() == owners@.len(),
            depth + unvisited(old(visited)@) <= usize::MAX,
        ensures
            final(visited)@.len() == map@.len(),
            final(path)@.len() == map@.len(),
            final(used)@.len() == owners@.len(),
            unvisited(final(visited)@) <= unvisited(old(visited)@),
            r is Ok && old(self)@.name == root_name() ==> final(self)@.name == root_name(),
            match r {
                Ok(owned) => {
                    &&& resolved(
                        views(map@),
                        Options { hide, limit: dpth_limit as int, owners: texts(owners@) },
                        old(self)@,
                        Walk { visited: old(visited)@, path: old(path)@, used: old(used)@ },
                        depth as nat,
                    ) == Ok::<(TodoView, bool, Walk), TodoErrorView>(
                        (
                            final(self)@,
                            owned,
                            Walk {
                                visited: final(visited)@,
                                path: final(path)@,
                                used: final(used)@,
                            },
                        ),
                    )
                    &&& (final(self).height <= old(self).height || final(self).height + unvisited(
                        final(visited)@,
                    ) <= unvisited(old(visited)@))
                },
                Err(e) => {
                    &&& resolved(
                        views(map@),
                        Options { hide, limit: dpth_limit as int, owners: texts(owners@) },
                        old(self)@,
                        Walk { visited: old(visited)@, path: old(path)@, used: old(used)@ },
                        depth as nat,
                    ) == Err::<(TodoView, bool, Walk), TodoErrorView>(e@)
                    &&& stopped(
                        views(map@),
                        Options { hide, limit: dpth_limit as int, owners: texts(owners@) },
                        old(self)@,
                        Walk { visited: old(visited)@, path: old(path)@, used: old(used)@ },
                        depth as nat,
                    ) == (
                        final(self)@,
                        Walk { visited: final(visited)@, path: final(path)@, used: final(used)@ },
                    )
                },
            },
        decreases unvisited(old(visited)@),
    {
        let ghost store = views(map@);
        let ghost opts = Options { hide, limit: dpth_limit as int, owners: texts(owners@) };
        let ghost st0 = Walk { visited: visited@, path: path@, used: used@ };
        let ghost (v0, entered) = enter(self@, opts, st0);
        proof {
            lemma_view(*self);
        }
        let found = Self::mark_owner(owners, used, self.owner.as_slice());
        let mut owned = owners.len() == 0 || found;
        let mut pending: Vec<Vec<u8>> = Vec::new();
        let ghost total = walk(store, opts, v0, 0, entered, depth as nat);
        let ghost mut v = v0;
        assert(texts(pending@) =~= v.pending);
        let mut i: usize = 0;
        while i < self.dependencies.len()
            invariant
                i <= self.dependencies.len(),
                store == views(map@),
                opts == (Options { hide, limit: dpth_limit as int, owners: texts(owners@) }),
                st0 == (Walk { visited: old(visited)@, path: old(path)@, used: old(used)@ }),
                total == walk(
                    store,
                    opts,
                    enter(old(self)@, opts, st0).0,
                    0,
                    enter(old(self)@, opts, st0).1,
                    depth as nat,
                ),
                visited@.len() == map@.len(),
                path@.len() == map@.len(),
                used@.len() == owners@.len(),
                unvisited(visited@) <= unvisited(old(visited)@),
                depth + unvisited(old(visited)@) <= usize::MAX,
                v.node == self@,
                self@.name == old(self)@.name,
                v.pending == texts(pending@),
                v.owned == owned,
                self.height <= old(self).height || self.height + unvisited(visited@) <= unvisited(
                    old(visited)@,
                ),
                walk(
                    store,
                    opts,
                    v,
                    i as int,
                    Walk { visited: visited@, path: path@, used: used@ },
                    depth as nat,
                ) == total,
                halted(
                    store,
                    opts,
                    v,
                    i as int,
                    Walk { visited: visited@, path: path@, used: used@ },
                    depth as nat,
                ) == stopped(store, opts, old(self)@, st0, depth as nat),
            decreases self.dependencies.len() - i,
        {
            proof {
                lemma_view(*self);
            }
            let ghost st = Walk { visited: visited@, path: path@, used: used@ };
            let name = bare(self.dependencies[i].as_slice());
            let d = position(map, name.as_slice());
            if d >= map.len() {
                return Err(TodoError::MissingTodo { name });
            }
            if path[d] {
                let me = slice(self.name.as_slice(), 0, self.name.len());
                assert(me@ =~= self.name@);
                return Err(TodoError::DependencyLoop { name: me });
            }
            proof {
                lemma_view(map@[d as int]);
            }
            let is_pending = match map[d].status {
                Status::Completed => false,
                _ => true,
            };
            let ghost seen = Visit {
                pending: if is_pending {
                    v.pending.push(name@)
                } else {
                    v.pending
                },
                ..v
            };
            if is_pending {
                let ghost before = texts(pending@);
                let copy = slice(name.as_slice(), 0, name.len());
                assert(copy@ =~= name@);
                pending.push(copy);
                assert(texts(pending@) =~= before.push(name@));
            }
            let scope = dpth_limit <= 0 || (dpth_limit as i128) > (depth as i128);
            assert(scope == in_scope(opts.limit, depth as nat));
            if scope && !visited[d] {
                proof {
                    lemma_unvisited_update(visited@, d as int);
                    lemma_unvisited_bound(visited@.update(d as int, true));
                }
                visited.set(d, true);
                path.set(d, true);
                let ghost inside = Walk { visited: visited@, path: path@, used: used@ };
                let mut child = map[d].fresh_copy();
                let ghost (c0, entered_child) = enter(fresh(store[d as int]), opts, inside);
                match child.resolve(visited, map, path, depth + 1, hide, dpth_limit, owners, used) {
                    Err(e) => {
                        return Err(e);
                    },
                    Ok(child_owned) => {
                        let ghost after = Walk { visited: visited@, path: path@, used: used@ };
                        path.set(d, false);
                        if child.height + 1 > self.height {
                            self.height = child.height + 1;
                        }
                        let keep = (dpth_limit >= 0 || (child.height as i128) + (dpth_limit as i128)
                            >= 0) && (is_pending || !hide) && child_owned;
                        assert((dpth_limit >= 0 || (child.height as i128) + (dpth_limit as i128)
                            >= 0) == survives(opts.limit, child@.height)) by {
                            lemma_view(child);
                        }
                        let ghost grown = adopt(opts, seen, child@, child_owned, is_pending);
                        let ghost kids = views(self.children@);
                        if keep {
                            self.children.push(child);
                            assert(views(self.children@) =~= kids.push(child@));
                        }
                        owned = owned || child_owned;
                        proof {
                            lemma_view(*self);
                            v = grown;
                            assert(v.node == self@);
                        }
                    },
                }
            } else {
                proof {
                    v = seen;
                }
            }
            i = i + 1;
        }
        proof {
            lemma_view(*self);
        }
        assert(total == Ok::<(Visit, Walk), TodoErrorView>(
            (v, Walk { visited: visited@, path: path@, used: used@ }),
        ));
        let done = match self.status {
            Status::Completed => true,
            _ => false,
        };
        if pending.len() > 0 && done {
            let me = slice(self.name.as_slice(), 0, self.name.len());
            assert(me@ =~= self.name@);
            return Err(TodoError::UnfinishedDependencies { name: me, pending });
        }
        if pending.len() == 0 && !done {
            self.status = Status::Actionable;
        }
        let is_root = self.name.len() == 1 && self.name[0] == SLASH;
        assert(is_root == (self.name@ == root_name())) by {
            if is_root {
                assert(self.name@ =~= root_name());
            }
        }
        let ends = self.name.len() > 0 && self.name[self.name.len() - 1] == SLASH;
        let cut = (dpth_limit > 0 && (dpth_limit as i128) == (depth as i128)) || (dpth_limit < 0
            && (self.height as i128) + (dpth_limit as i128) == 0);
        assert(cut == is_cut(opts.limit, depth as nat, self.height as nat));
        if !is_root && self.dependencies.len() > 0 && !ends && cut {
            self.name.push(SLASH);
        }
        proof {
            lemma_view(*self);
        }
        Ok(owned)
    }

    /// Resolves the tree below this todo, which stands at `depth`, from the
    /// todos of `map`, and lays the tree out if this todo is the root.
    ///
    /// `visited` and `path` hold one flag per todo of `map`: whether the
    /// walk has entered it, and whether the walk is inside of it. `used`
    /// holds one flag per owner of `owners`: whether a todo entered has that
    /// owner. The walk goes through the dependencies of each todo in the
    /// order in which they are written, shows each todo once, below the
    /// first todo that reaches it, and leaves `visited`, `path` and `used` as
    /// they stand at its end. It returns whether this todo or one entered
    /// below it has an owner asked for.
    ///
    /// Under a positive `dpth_limit` a todo at that depth does not look into
    /// its dependencies; under a negative one a todo is left out that is
    /// fewer than that many levels above the deepest todo below it. With
    /// `hide`, completed todos are left out. Either way the todo's
    /// dependencies decide its status.
    ///
    /// For the root, `maxlens` is widened to the columns that the tree needs
    /// on a screen of `screen_width` columns.
    ///
    /// Where no two todos of `map` have the same name, and none a name that
    /// is empty or ends with `/`, no name occurs twice in the tree resolved
    /// below a todo that comes without children, cut marks aside.
    ///
    /// When the walk fails, the todo keeps the children adopted before the
    /// failure, and the flags stay as they stood there.
    pub fn build_tree(
        &mut self,
        visited: &mut Vec<bool>,
        map: &Vec<Todo>,
        maxlens: &mut [usize; 3],
        path: &mut Vec<bool>,
        depth: usize,
        screen_width: usize,
        hide: bool,
        dpth_limit: i32,
        owners: &Vec<Vec<u8>>,
        used: &mut Vec<bool>,
    ) -> (r: Result<bool, TodoError>)
        requires
            old(visited)@.len() == map@.len(),
            old(path)@.len() == map@.len(),
            old(used)@.len() == owners@.len(),
            depth + unvisited(old(visited)@) <= usize::MAX,
        ensures
            final(visited)@.len() == map@.len(),
            final(path)@.len() == map@.len(),
            final(used)@.len() == owners@.len(),
            r is Ok && old(self)@.name == root_name() ==> fits(
                final(self)@,
                0,
                final(maxlens)@,
            ),
            r is Ok && distinct_names(views(map@)) && old(self)@.children.len() == 0 ==> shown_once(
                views(map@),
                final(self)@,
                old(visited)@,
                final(visited)@,
            ),
            match r {
                Ok(owned) => match built(
                    views(map@),
                    Options { hide, limit: dpth_limit as int, owners: texts(owners@) },
                    old(self)@,
                    Walk { visited: old(visited)@, path: old(path)@, used: old(used)@ },
                    depth as nat,
                    Extent::of(old(maxlens)@),
                    screen_width as nat,
                ) {
                    Ok((node, node_owned, after, widths)) => {
                        &&& final(self)@ == node
                        &&& owned == node_owned
                        &&& after == (Walk {
                            visited: final(visited)@,
                            path: final(path)@,
                            used: final(used)@,
                        })
                        &&& widths.held_by(final(maxlens)@)
                    },
                    Err(_) => false,
                },
                Err(e) => {
                    let left = left_unbuilt(
                        views(map@),
                        Options { hide, limit: dpth_limit as int, owners: texts(owners@) },
                        old(self)@,
                        Walk { visited: old(visited)@, path: old(path)@, used: old(used)@ },
                        depth as nat,
                        Extent::of(old(maxlens)@),
                    );
                    &&& built(
                        views(map@),
                        Options { hide, limit: dpth_limit as int, owners: texts(owners@) },
                        old(self)@,
                        Walk { visited: old(visited)@, path: old(path)@, used: old(used)@ },
                        depth as nat,
                        Extent::of(old(maxlens)@),
                        screen_width as nat,
                    ) == Err::<(TodoView, bool, Walk, Extent), TodoErrorView>(e@)
                    &&& final(self)@ == left.0
                    &&& left.1 == (Walk {
                        visited: final(visited)@,
                        path: final(path)@,
                        used: final(used)@,
                    })
                    &&& left.2.held_by(final(maxlens)@)
                },
            },
    {
        proof {
            lemma_view(*self);
        }
        let is_root = self.name.len() == 1 && self.name[0] == SLASH;
        assert(is_root == (self.name@ == root_name())) by {
            if is_root {
                assert(self.name@ =~= root_name());
            }
        }
        let owned = match self.resolve(visited, map, path, depth, hide, dpth_limit, owners, used) {
            Err(e) => {
                return Err(e);
            },
            Ok(owned) => owned,
        };
        proof {
            lemma_view(*self);
            if distinct_names(views(map@)) && old(self)@.children.len() == 0 {
                law_shown_once(
                    views(map@),
                    Options { hide, limit: dpth_limit as int, owners: texts(owners@) },
                    old(self)@,
                    Walk { visited: old(visited)@, path: old(path)@, used: old(used)@ },
                    depth as nat,
                );
            }
        }
        if is_root {
            let ghost node = self@;
            let ghost known = Extent::of(maxlens@);
            match self.get_maxlens(maxlens, 0, screen_width) {
                Err(e) => {
                    return Err(e);
                },
                Ok(_) => {},
            }
            proof {
                lemma_laid_out_fits(node, known, screen_width as nat, maxlens@);
                lemma_shown_same(self@, node, 0);
            }
        }
        Ok(owned)
    }
}

} // verus!
