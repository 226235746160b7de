//! Gathering the graph: which todos stand at the top, and which names are
//! used without a definition.
use crate::{Status, TodoErrorView};
use crate::grammar::first_naming;
use crate::resolve::find;

use crate::todo::{bare_name, is_marked, new_todo, root_name, TodoView};
use vstd::prelude::*;

verus! {

/// The name that the `j`-th dependency of `t` stands for.
pub open spec fn target(t: TodoView, j: int) -> Seq<u8> {
    bare_name(t.dependencies[j])
}

/// Whether some todo of `dict` has a dependency that names `name`.
pub open spec fn is_needed(dict: Seq<TodoView>, name: Seq<u8>) -> bool {
    exists|i: int, j: int|
        0 <= i < dict.len() && 0 <= j < dict[i].dependencies.len() && #[trigger] target(
            dict[i],
            j,
        ) == name
}

/// The names of the todos from the `k`-th on that no todo depends on, in
/// the order of their definitions.
pub open spec fn tops_from(dict: Seq<TodoView>, k: int) -> Seq<Seq<u8>>
    decreases dict.len() - k,
{
    if k < 0 || k >= dict.len() {
        Seq::empty()
    } else {
        (if is_needed(dict, dict[k].name) {
            Seq::empty()
        } else {
            seq![dict[k].name]
        }) + tops_from(dict, k + 1)
    }
}

/// The names of the todos that no todo depends on.
pub open spec fn tops(dict: Seq<TodoView>) -> Seq<Seq<u8>> {
    tops_from(dict, 0)
}

/// The todos that are referred to but not defined, each with the name of
/// the todo that referred to it first.
pub ghost struct Stubs {
    pub todos: Seq<TodoView>,
    pub parents: Seq<Seq<u8>>,
}

/// What one dependency `dep` of the todo named `parent` does to the stubs.
///
/// A dependency on a defined todo must carry no completion marker. One on
/// an undefined todo must agree with the first reference to that todo on
/// whether the todo is completed; the first reference makes the stub, as
/// [`new_todo`] makes a todo of the name alone, if stubs are added at all,
/// and is an error if they are not. No stub is made for the name of the
/// root.
pub open spec fn with_dependency(
    dict: Seq<TodoView>,
    stubs: Stubs,
    auto_add: bool,
    parent: Seq<u8>,
    dep: Seq<u8>,
) -> Result<Stubs, TodoErrorView> {
    let name = bare_name(dep);
    let marked = is_marked(dep);
    let k = find(stubs.todos, name);
    if find(dict, name) < dict.len() {
        if marked {
            Err(TodoErrorView::MarkedDefinition { name, parent })
        } else {
            Ok(stubs)
        }
    } else if k < stubs.todos.len() {
        if (stubs.todos[k].status == Status::Completed) != marked {
            Err(TodoErrorView::ConflictingMarkers { name, first: stubs.parents[k], second: parent })
        } else {
            Ok(stubs)
        }
    } else if !auto_add {
        Err(TodoErrorView::MissingTodo { name })
    } else if name == root_name() {
        Err(TodoErrorView::ReservedName)
    } else {
        match new_todo(dep, Seq::empty(), Seq::empty(), Seq::empty(), Seq::empty()) {
            Err(e) => Err(e),
            Ok(t) => Ok(Stubs { todos: stubs.todos.push(t), parents: stubs.parents.push(parent) }),
        }
    }
}

/// The stubs after the dependencies of the `i`-th todo from the `j`-th on,
/// and those of all later todos, are looked at in order.
pub open spec fn with_dependencies(
    dict: Seq<TodoView>,
    stubs: Stubs,
    auto_add: bool,
    i: int,
    j: int,
) -> Result<Stubs, TodoErrorView>
    decreases dict.len() - i, dict[i].dependencies.len() - j,
{
    if i < 0 || i >= dict.len() {
        Ok(stubs)
    } else if j < 0 || j >= dict[i].dependencies.len() {
        with_dependencies(dict, stubs, auto_add, i + 1, 0)
    } else {
        match with_dependency(dict, stubs, auto_add, dict[i].name, dict[i].dependencies[j]) {
            Err(e) => Err(e),
            Ok(stubs) => with_dependencies(dict, stubs, auto_add, i, j + 1),
        }
    }
}

/// The todos with a stub added behind them for each name that is referred to
/// but not defined, in the order of the first references.
pub open spec fn with_stubs(dict: Seq<TodoView>, auto_add: bool) -> Result<
    Seq<TodoView>,
    TodoErrorView,
> {
    match with_dependencies(
        dict,
        Stubs { todos: Seq::empty(), parents: Seq::empty() },
        auto_add,
        0,
        0,
    ) {
        Err(e) => Err(e),
        Ok(stubs) => Ok(dict + stubs.todos),
    }
}

/// `first_naming` stays within the list, stops at a dependency that names
/// `name`, and passes none that does.
pub proof fn lemma_first_naming(deps: Seq<Seq<u8>>, name: Seq<u8>, i: int)
    requires
        0 <= i <= deps.len(),
    ensures
        i <= first_naming(deps, name, i) <= deps.len(),
        first_naming(deps, name, i) < deps.len() ==> bare_name(deps[first_naming(deps, name, i)]) == name,
        forall|k: int| i <= k < first_naming(deps, name, i) ==> bare_name(deps[k]) != name,
    decreases deps.len() - i,
{
    if i < deps.len() && bare_name(deps[i]) != name {
        lemma_first_naming(deps, name, i + 1);
    }
}

} // verus!
