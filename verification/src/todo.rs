//! One todo: what the input says of it, and what resolving the tree adds.
use crate::{bytes, Status, TodoError, TodoErrorView};
use crate::text::{texts, SLASH, TILDE};
use vstd::prelude::*;

verus! {

/// A todo. Before the tree is resolved it holds what its definition says;
/// resolving fills in `children` and `height` and settles `status`.
#[derive(Debug)]
pub struct Todo {
    /// The name, without completion marker.
    pub name: Vec<u8>,
    /// The owner, empty if none was given.
    pub owner: Vec<u8>,
    /// The comment lines.
    pub comment: Vec<Vec<u8>>,
    /// The dependencies as written, each possibly with a completion marker.
    pub dependencies: Vec<Vec<u8>>,
    /// The lines that followed the definition and belong to none of its
    /// parts.
    pub auxilaries: Vec<Vec<u8>>,
    /// The todos shown below this one in the resolved tree.
    pub children: Vec<Todo>,
    /// The length of the longest chain of todos walked below this one.
    pub height: usize,
    pub status: Status,
}

/// A [`Todo`] as a mathematical value.
pub ghost struct TodoView {
    pub name: Seq<u8>,
    pub owner: Seq<u8>,
    pub comment: Seq<Seq<u8>>,
    pub dependencies: Seq<Seq<u8>>,
    pub auxilaries: Seq<Seq<u8>>,
    pub children: Seq<TodoView>,
    pub height: nat,
    pub status: Status,
}

/// The name of the root of every tree.
pub open spec fn root_name() -> Seq<u8> {
    seq![SLASH]
}

/// The bytes that a name may hold: ASCII letters and digits, and the marks
/// `! @ $ % & ( ) - _ = + : ' " . ?`.
pub open spec fn is_name_byte(b: u8) -> bool {
    ||| 97 <= b <= 122
    ||| 65 <= b <= 90
    ||| 48 <= b <= 57
    ||| b == 33 || b == 64 || b == 36 || b == 37 || b == 38 || b == 40 || b == 41
    ||| b == 45 || b == 95 || b == 61 || b == 43 || b == 58 || b == 39 || b == 34
    ||| b == 46 || b == 63
}

/// Index of the first byte of `name` at or after `i` that a name may not
/// hold (`name.len()` when there is none).
pub open spec fn first_bad_byte(name: Seq<u8>, i: int) -> int
    decreases name.len() - i,
{
    if i < 0 || i >= name.len() || !is_name_byte(name[i]) {
        i
    } else {
        first_bad_byte(name, i + 1)
    }
}

/// Whether a header or a dependency carries the completion marker `~` in
/// front.
pub open spec fn is_marked(raw: Seq<u8>) -> bool {
    raw.len() > 0 && raw[0] == TILDE
}

/// The name that a header or a dependency stands for: the text without the
/// completion marker in front, if it has one; else the text as it is.
pub open spec fn bare_name(raw: Seq<u8>) -> Seq<u8> {
    if is_marked(raw) {
        raw.skip(1)
    } else {
        raw
    }
}

/// Why `name` cannot be the name of a todo, if it cannot. The name of the
/// root passes unchecked; any other name must not be empty, must not end
/// with `/` and must hold name bytes only.
pub open spec fn name_fault(name: Seq<u8>) -> Option<TodoErrorView> {
    if name == root_name() {
        None
    } else if name.len() == 0 {
        Some(TodoErrorView::ReservedName)
    } else if name.last() == SLASH {
        Some(TodoErrorView::TrailingSlash { name })
    } else if first_bad_byte(name, 0) < name.len() {
        Some(TodoErrorView::UnsupportedCharacter { name, byte: name[first_bad_byte(name, 0)] })
    } else {
        None
    }
}

/// The lines kept after a definition: a single empty line when there are
/// none.
pub open spec fn kept_auxilaries(auxilaries: Seq<Seq<u8>>) -> Seq<Seq<u8>> {
    if auxilaries.len() == 0 {
        seq![Seq::<u8>::empty()]
    } else {
        auxilaries
    }
}

/// What [`Todo::new`] makes of its arguments.
pub open spec fn new_todo(
    name: Seq<u8>,
    owner: Seq<u8>,
    comment: Seq<Seq<u8>>,
    dependencies: Seq<Seq<u8>>,
    auxilaries: Seq<Seq<u8>>,
) -> Result<TodoView, TodoErrorView> {
    match name_fault(bare_name(name)) {
        Some(e) => Err(e),
        None => Ok(
            TodoView {
                name: bare_name(name),
                owner,
                comment,
                dependencies,
                auxilaries: kept_auxilaries(auxilaries),
                children: Seq::empty(),
                height: 0,
                status: if is_marked(name) {
                    Status::Completed
                } else {
                    Status::Pending
                },
            },
        ),
    }
}

impl Todo {
    /// The todo as a mathematical value.
    pub open spec fn model(self) -> TodoView
        decreases self,
    {
        TodoView {
            name: self.name@,
            owner: self.owner@,
            comment: texts(self.comment@),
            dependencies: texts(self.dependencies@),
            auxilaries: texts(self.auxilaries@),
            children: Seq::new(
                self.children@.len(),
                |i: int|
                    if 0 <= i < self.children@.len() {
                        self.children@[i].model()
                    } else {
                        arbitrary()
                    },
            ),
            height: self.height as nat,
            status: self.status,
        }
    }
}

impl View for Todo {
    type V = TodoView;

    open spec fn view(&self) -> TodoView {
        self.model()
    }
}

/// The views of a sequence of todos.
pub open spec fn views(ts: Seq<Todo>) -> Seq<TodoView> {
    Seq::new(ts.len(), |i: int| ts[i]@)
}

/// A todo's view, spelled out field by field.
pub proof fn lemma_view(t: Todo)
    ensures
        t@.name == t.name@,
        t@.owner == t.owner@,
        t@.comment == texts(t.comment@),
        t@.dependencies == texts(t.dependencies@),
        t@.auxilaries == texts(t.auxilaries@),
        t@.children == views(t.children@),
        t@.height == t.height,
        t@.status == t.status,
{
    assert(t@.children =~= views(t.children@));
}

/// Whether `b` may stand in a name.
pub fn name_byte(b: u8) -> (r: bool)
    ensures
        r == is_name_byte(b),
{
    (97 <= b && b <= 122) || (65 <= b && b <= 90) || (48 <= b && b <= 57) || b == 33 || b == 64
        || b == 36 || b == 37 || b == 38 || b == 40 || b == 41 || b == 45 || b == 95 || b == 61
        || b == 43 || b == 58 || b == 39 || b == 34 || b == 46 || b == 63
}

/// The name that a header or a dependency stands for: the text without the
/// completion marker in front, if it has one.
pub fn bare(raw: &[u8]) -> (r: Vec<u8>)
    ensures
        r@ == bare_name(raw@),
{
    if raw.len() > 0 && raw[0] == TILDE {
        bytes::slice(raw, 1, raw.len())
    } else {
        let r = bytes::slice(raw, 0, raw.len());
        assert(r@ =~= raw@);
        r
    }
}

/// The root before a tree is resolved: a pending todo with the name of the
/// root that depends on `dependencies` and holds nothing else but one empty
/// line.
pub open spec fn new_root(dependencies: Seq<Seq<u8>>) -> TodoView {
    TodoView {
        name: root_name(),
        owner: Seq::empty(),
        comment: Seq::empty(),
        dependencies,
        auxilaries: seq![Seq::<u8>::empty()],
        children: Seq::empty(),
        height: 0,
        status: Status::Pending,
    }
}

impl Todo {
    /// Makes the root of a tree, which depends on `dependencies`.
    pub fn root(dependencies: Vec<Vec<u8>>) -> (r: Todo)
        ensures
            r@ == new_root(texts(dependencies@)),
    {
        let mut name: Vec<u8> = Vec::new();
        name.push(SLASH);
        let mut auxilaries: Vec<Vec<u8>> = Vec::new();
        auxilaries.push(Vec::new());
        let t = Todo {
            name,
            owner: Vec::new(),
            comment: Vec::new(),
            dependencies,
            auxilaries,
            children: Vec::new(),
            height: 0,
            status: Status::Pending,
        };
        proof {
            lemma_view(t);
            assert(t@.name =~= root_name());
            assert(t@.owner =~= Seq::<u8>::empty());
            assert(t@.comment =~= Seq::<Seq<u8>>::empty());
            assert(t@.auxilaries =~= seq![Seq::<u8>::empty()]);
            assert(t@.children =~= Seq::<TodoView>::empty());
        }
        t
    }

    /// Makes a todo from the parts of its definition.
    ///
    /// A `~` in front of `name` marks the todo as completed and is not part
    /// of its name. The name is refused when it is empty, ends with `/` or
    /// holds a byte that names may not hold, unless it is `/` itself, the
    /// name of the root. When `auxilaries` is empty, the todo keeps one empty
    /// line.
    pub fn new(
        name: Vec<u8>,
        owner: Vec<u8>,
        comment: Vec<Vec<u8>>,
        dependencies: Vec<Vec<u8>>,
        auxilaries: Vec<Vec<u8>>,
    ) -> (r: Result<Todo, TodoError>)
        ensures
            match r {
                Ok(t) => new_todo(
                    name@,
                    owner@,
                    texts(comment@),
                    texts(dependencies@),
                    texts(auxilaries@),
                ) == Ok::<TodoView, TodoErrorView>(t@),
                Err(e) => new_todo(
                    name@,
                    owner@,
                    texts(comment@),
                    texts(dependencies@),
                    texts(auxilaries@),
                ) == Err::<TodoView, TodoErrorView>(e@),
            },
    {
        let marked = name.len() > 0 && name[0] == TILDE;
        let bare = bare(name.as_slice());
        let is_root = bare.len() == 1 && bare[0] == SLASH;
        assert(is_root == (bare@ == root_name())) by {
            if is_root {
                assert(bare@ =~= root_name());
            }
        }
        if !is_root {
            if bare.len() == 0 {
                return Err(TodoError::ReservedName);
            }
            if bare[bare.len() - 1] == SLASH {
                return Err(TodoError::TrailingSlash { name: bare });
            }
            let mut i: usize = 0;
            while i < bare.len()
                invariant
                    i <= bare.len(),
                    first_bad_byte(bare@, i as int) == first_bad_byte(bare@, 0),
                    bare@ == bare_name(name@),
                    bare@ != root_name(),
                    bare@.len() > 0,
                    bare@.last() != SLASH,
                decreases bare.len() - i,
            {
                let b = bare[i];
                if !name_byte(b) {
                    assert(first_bad_byte(bare@, i as int) == i);
                    return Err(TodoError::UnsupportedCharacter { name: bare, byte: b });
                }
                i = i + 1;
            }
            assert(first_bad_byte(bare@, i as int) == i);
        }
        let mut auxilaries = auxilaries;
        if auxilaries.len() == 0 {
            auxilaries.push(Vec::new());
            assert(texts(auxilaries@) =~= seq![Seq::<u8>::empty()]);
        }
        let t = Todo {
            name: bare,
            owner,
            comment,
            dependencies,
            auxilaries,
            children: Vec::new(),
            height: 0,
            status: if marked {
                Status::Completed
            } else {
                Status::Pending
            },
        };
        proof {
            lemma_view(t);
            assert(t@.children =~= Seq::<TodoView>::empty());
        }
        Ok(t)
    }
}

/// The todos below `t` in the tree, in the order in which they are drawn.
pub open spec fn below(t: TodoView) -> Seq<TodoView>
    decreases t, t.children.len() + 1,
{
    below_from(t, 0)
}

/// The children of `t` from the `k`-th on, each with the todos below it.
pub open spec fn below_from(t: TodoView, k: int) -> Seq<TodoView>
    decreases t, t.children.len() - k,
{
    if k < 0 || k >= t.children.len() {
        Seq::empty()
    } else {
        seq![t.children[k]] + below(t.children[k]) + below_from(t, k + 1)
    }
}

/// The todos below a todo once a child is attached behind the others.
pub proof fn lemma_below_push(t: TodoView, child: TodoView, k: int)
    requires
        0 <= k <= t.children.len(),
    ensures
        below_from(TodoView { children: t.children.push(child), ..t }, k) == below_from(t, k)
            + seq![child] + below(child),
    decreases t.children.len() - k,
{
    let grown = TodoView { children: t.children.push(child), ..t };
    if k < t.children.len() {
        lemma_below_push(t, child, k + 1);
        assert(grown.children[k] == t.children[k]);
        assert(seq![t.children[k]] + below(t.children[k]) + (below_from(t, k + 1) + seq![child]
            + below(child)) =~= (seq![t.children[k]] + below(t.children[k]) + below_from(t, k + 1))
            + seq![child] + below(child));
    } else {
        assert(grown.children[k] == child);
        assert(below_from(grown, k + 1) =~= Seq::<TodoView>::empty());
        assert(below_from(t, k) =~= Seq::<TodoView>::empty());
        assert(seq![child] + below(child) + Seq::<TodoView>::empty() =~= Seq::<TodoView>::empty()
            + seq![child] + below(child));
    }
}

/// The todos below a todo depend on its children alone.
pub proof fn lemma_below_same(a: TodoView, b: TodoView, k: int)
    requires
        a.children == b.children,
    ensures
        below_from(a, k) == below_from(b, k),
    decreases a.children.len() - k,
{
    if 0 <= k < a.children.len() {
        lemma_below_same(a, b, k + 1);
    }
}

/// Whether the todos of a store can be told apart by their names: no name
/// occurs twice, and none is empty or ends with `/`.
pub open spec fn distinct_names(store: Seq<TodoView>) -> bool {
    &&& forall|i: int, j: int|
        0 <= i < j < store.len() ==> #[trigger] store[i].name != #[trigger] store[j].name
    &&& forall|i: int|
        0 <= i < store.len() ==> (#[trigger] store[i]).name.len() > 0 && store[i].name.last()
            != SLASH
}

} // verus!
