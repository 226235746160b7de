//! The tree of todos: reading the files, gathering the todos, resolving the
//! tree and rendering it.
use crate::{Format, Status, TodoError, TodoErrorView};
use crate::assemble::{
    is_needed, lemma_first_naming, target, tops, tops_from, with_dependencies, with_dependency,
    with_stubs, Stubs,
};
use crate::bytes::{
    append, copy_all, equal, join, slice, split_lines, split_words, starts_with, trim,
};
use crate::grammar::{
    left_by_line, left_by_lines, left_by_read,
    comment_bytes, dependency_bytes, escaped, escaped_from, filed, first_naming, header_bytes,
    is_special, kept_comment, owner_bytes, read, read_all, read_line, read_lines, Draft, DraftView,
    Notes, Reading,
};
use crate::layout::{capped, Extent};
use crate::render::{fits, frame_of, lemma_unlines_add, lemma_unlines_one, rendered, unlines};
use crate::resolve::{built, lemma_unvisited_bound, position, Options, Walk};
use crate::text::{joined, lines, texts, BACKSLASH, NEWLINE, SLASH, SPACE, TAB, TILDE};
use crate::laws::lemma_gathered_distinct;
use crate::todo::{
    bare, distinct_names, lemma_view, new_root, root_name, views, Todo, TodoView,
};
use vstd::prelude::*;

verus! {

/// A tree of todos, resolved and laid out, ready to be rendered.
#[derive(Debug)]
pub struct Tree {
    /// The root, with the resolved tree below it.
    root: Todo,
    /// The output format.
    format: Format,
    /// The widths of the name, owner and comment columns.
    maxlens: [usize; 3],
    /// The todos, in the order of their definitions, the undefined ones that
    /// were added for their names behind them.
    dict: Vec<Todo>,
    /// What joins the comment lines of a todo into one.
    separator: Vec<u8>,
    /// The lines in front of the first definition of the file read last.
    auxilaries: Vec<Vec<u8>>,
    /// Whether names are drawn without colour.
    no_color: bool,
    /// Whether children are drawn above their parent.
    reverse: bool,
}

/// A [`Tree`] as a mathematical value.
pub ghost struct TreeView {
    /// The root, with the resolved tree below it.
    pub root: TodoView,
    pub format: Format,
    /// The widths of the name, owner and comment columns.
    pub widths: Seq<usize>,
    /// The todos, in the order of their definitions, the undefined ones that
    /// were added for their names behind them.
    pub dict: Seq<TodoView>,
    pub separator: Seq<u8>,
    /// The lines in front of the first definition of the file read last.
    pub prelude: Seq<Seq<u8>>,
    pub no_color: bool,
    pub reverse: bool,
}

impl TreeView {
    /// The tree in its format: the tree below the root as [`rendered`]
    /// defines it, and in front of it, in markdown, the prelude.
    pub open spec fn rendered(self) -> Seq<u8> {
        (if self.format == Format::Md {
            unlines(self.prelude)
        } else {
            Seq::empty()
        }) + rendered(
            self.root,
            frame_of(self.format, Seq::empty(), self.widths, self.reverse),
            self.format,
            self.no_color,
        )
    }
}

/// What a tree is made from.
pub ghost struct Request {
    /// The texts of the files.
    pub inputs: Seq<Seq<u8>>,
    /// The owners whose todos are shown; none means all.
    pub owners: Seq<Seq<u8>>,
    /// The todos that stand below the root; none means those that no todo
    /// depends on.
    pub targets: Seq<Seq<u8>>,
    /// The width of the screen in columns; 0 means 80.
    pub term_width: nat,
    /// The name of the format.
    pub format: Seq<u8>,
    pub hide_done: bool,
    pub dpth_limit: int,
    pub separator: Seq<u8>,
    pub no_color: bool,
    pub auto_add: bool,
    pub hide_comment: bool,
    pub hide_owner: bool,
    pub reverse: bool,
}

/// The width that output is laid out for when none is given.
pub const DEFAULT_WIDTH: usize = 80;

/// `n` flags, none set.
pub open spec fn no_flags(n: nat) -> Seq<bool> {
    Seq::new(n, |i: int| false)
}

/// Index of the first flag at or after `j` that is not set (`used.len()`
/// when all are).
pub open spec fn first_unused(used: Seq<bool>, j: int) -> int
    decreases used.len() - j,
{
    if j < 0 || j >= used.len() || !used[j] {
        j
    } else {
        first_unused(used, j + 1)
    }
}

/// The root before the tree is resolved: it depends on the targets, or, if
/// there are none, on the todos that no todo depends on.
pub open spec fn seed(targets: Seq<Seq<u8>>, dict: Seq<TodoView>) -> TodoView {
    new_root(if targets.len() == 0 {
        tops(dict)
    } else {
        targets
    })
}

/// The todos gathered for a request: the files are read in order
/// ([`read_all`]) and must define a todo; without targets, some todo must
/// be no dependency of another; every dependency is checked and stubs are
/// added ([`with_stubs`]). The result holds the todos with the stubs, the
/// root before the tree is resolved, and the prelude.
pub open spec fn gathered(req: Request) -> Result<
    (Seq<TodoView>, TodoView, Seq<Seq<u8>>),
    TodoErrorView,
> {
    match read_all(
        Notes { dict: Seq::empty(), prelude: Seq::empty() },
        req.inputs,
        0,
        Reading {
            separator: req.separator,
            hide_comment: req.hide_comment,
            hide_owner: req.hide_owner,
        },
    ) {
        Err(e) => Err(e),
        Ok(notes) => if notes.dict.len() == 0 {
            Err(TodoErrorView::NoTodo)
        } else if req.targets.len() == 0 && tops(notes.dict).len() == 0 {
            Err(TodoErrorView::NoRoot)
        } else {
            match with_stubs(notes.dict, req.auto_add) {
                Err(e) => Err(e),
                Ok(dict) => Ok((dict, seed(req.targets, notes.dict), notes.prelude)),
            }
        },
    }
}

/// The tree grown from the todos gathered: the tree is resolved from the
/// root and laid out ([`built`]), with nothing visited before; then every
/// owner asked for must have been met.
pub open spec fn grown(
    req: Request,
    format: Format,
    dict: Seq<TodoView>,
    root: TodoView,
    prelude: Seq<Seq<u8>>,
) -> Result<TreeView, TodoErrorView> {
    match built(
        dict,
        Options { hide: req.hide_done, limit: req.dpth_limit, owners: req.owners },
        root,
        Walk {
            visited: no_flags(dict.len()),
            path: no_flags(dict.len()),
            used: no_flags(req.owners.len()),
        },
        0,
        Extent { name: 0, owner: 0, comment: 0 },
        if req.term_width == 0 {
            DEFAULT_WIDTH as nat
        } else {
            req.term_width
        },
    ) {
        Err(e) => Err(e),
        Ok((root, _, after, widths)) => if first_unused(after.used, 0) < req.owners.len() {
            Err(TodoErrorView::UnknownOwner { owner: req.owners[first_unused(after.used, 0)] })
        } else {
            Ok(
                TreeView {
                    root,
                    format,
                    widths: seq![capped(widths.name), capped(widths.owner), capped(widths.comment)],
                    dict,
                    separator: req.separator,
                    prelude,
                    no_color: req.no_color,
                    reverse: req.reverse,
                },
            )
        },
    }
}

/// What [`Tree::new`] makes of a request, step by step; the first step that
/// fails gives the error. The format name is read, and reverse order is
/// refused for a format that is no table; then the todos are gathered
/// ([`gathered`]) and the tree is grown from them ([`grown`]).
pub open spec fn planted(req: Request) -> Result<TreeView, TodoErrorView> {
    match Format::named(req.format) {
        None => Err(TodoErrorView::UnknownFormat),
        Some(format) => if req.reverse && format != Format::Term && format != Format::Html {
            Err(TodoErrorView::ReverseUnsupported)
        } else {
            match gathered(req) {
                Err(e) => Err(e),
                Ok((dict, root, prelude)) => grown(req, format, dict, root, prelude),
            }
        },
    }
}

/// Index of the first flag that is not set (`used.len()` if all are).
fn unused(used: &Vec<bool>) -> (r: usize)
    ensures
        r == first_unused(used@, 0),
        r <= used@.len(),
{
    let mut j: usize = 0;
    while j < used.len()
        invariant
            j <= used.len(),
            first_unused(used@, j as int) == first_unused(used@, 0),
        decreases used.len() - j,
    {
        if !used[j] {
            return j;
        }
        j = j + 1;
    }
    j
}

/// `n` flags, none set.
fn flags(n: usize) -> (r: Vec<bool>)
    ensures
        r@ == no_flags(n as nat),
{
    let mut r: Vec<bool> = Vec::new();
    while r.len() < n
        invariant
            r@.len() <= n,
            forall|i: int| 0 <= i < r@.len() ==> !r@[i],
        decreases n - r@.len(),
    {
        r.push(false);
    }
    assert(r@ =~= no_flags(n as nat));
    r
}

/// Whether a backslash in front of `b` is an escape.
fn special(b: u8) -> (r: bool)
    ensures
        r == is_special(b),
{
    b == 92 || b == 96 || b == 42 || b == 95 || b == 123 || b == 125 || b == 91 || b == 93 || b
        == 40 || b == 41 || b == 35 || b == 43 || b == 45 || b == 46 || b == 33
}

/// Index of the first dependency that names `name`, markers aside
/// (`deps.len()` if there is none).
fn names(deps: &Vec<Vec<u8>>, name: &[u8]) -> (r: usize)
    ensures
        r == first_naming(texts(deps@), name@, 0),
        r <= deps.len(),
{
    let mut k: usize = 0;
    while k < deps.len()
        invariant
            k <= deps.len(),
            first_naming(texts(deps@), name@, k as int) == first_naming(texts(deps@), name@, 0),
        decreases deps.len() - k,
    {
        let nom = bare(deps[k].as_slice());
        if equal(nom.as_slice(), name) {
            return k;
        }
        k = k + 1;
    }
    k
}

/// Whether some todo of `dict` has a dependency that names `name`.
fn needed(dict: &Vec<Todo>, name: &[u8]) -> (r: bool)
    ensures
        r == is_needed(views(dict@), name@),
{
    let mut i: usize = 0;
    while i < dict.len()
        invariant
            i <= dict.len(),
            forall|a: int, b: int|
                0 <= a < i && 0 <= b < views(dict@)[a].dependencies.len() ==> #[trigger] target(
                    views(dict@)[a],
                    b,
                ) != name@,
        decreases dict.len() - i,
    {
        proof {
            lemma_view(dict@[i as int]);
            lemma_first_naming(views(dict@)[i as int].dependencies, name@, 0);
        }
        let j = names(&dict[i].dependencies, name);
        if j < dict[i].dependencies.len() {
            assert(target(views(dict@)[i as int], j as int) == name@);
            return true;
        }
        i = i + 1;
    }
    false
}

/// The names of the todos that no todo depends on, in the order of their
/// definitions.
fn top_names(dict: &Vec<Todo>) -> (r: Vec<Vec<u8>>)
    ensures
        texts(r@) == tops(views(dict@)),
{
    let mut out: Vec<Vec<u8>> = Vec::new();
    let mut k: usize = 0;
    assert(texts(out@) + tops_from(views(dict@), 0) =~= tops(views(dict@)));
    while k < dict.len()
        invariant
            k <= dict.len(),
            texts(out@) + tops_from(views(dict@), k as int) == tops(views(dict@)),
        decreases dict.len() - k,
    {
        proof {
            lemma_view(dict@[k as int]);
        }
        let ghost before = texts(out@);
        let ghost rest = tops_from(views(dict@), k as int + 1);
        if !needed(dict, dict[k].name.as_slice()) {
            let name = slice(dict[k].name.as_slice(), 0, dict[k].name.len());
            assert(name@ =~= dict@[k as int].name@);
            out.push(name);
            assert(texts(out@) =~= before.push(name@));
            assert(before + (seq![name@] + rest) =~= texts(out@) + rest);
        } else {
            assert(before + (Seq::<Seq<u8>>::empty() + rest) =~= before + rest);
        }
        k = k + 1;
    }
    assert(texts(out@) + tops_from(views(dict@), k as int) =~= texts(out@));
    out
}

/// Looks at one dependency `dep` of the todo named `parent`: checks it
/// against the todos defined and the stubs made so far, and makes a stub for
/// it if it is the first reference to an undefined todo.
fn check_dependency(
    dict: &Vec<Todo>,
    stubs: &mut Vec<Todo>,
    parents: &mut Vec<Vec<u8>>,
    auto_add: bool,
    parent: &[u8],
    dep: &[u8],
) -> (r: Result<(), TodoError>)
    requires
        old(stubs)@.len() == old(parents)@.len(),
    ensures
        final(stubs)@.len() == final(parents)@.len(),
        match r {
            Ok(_) => with_dependency(
                views(dict@),
                Stubs { todos: views(old(stubs)@), parents: texts(old(parents)@) },
                auto_add,
                parent@,
                dep@,
            ) == Ok::<Stubs, TodoErrorView>(
                Stubs { todos: views(final(stubs)@), parents: texts(final(parents)@) },
            ),
            Err(e) => with_dependency(
                views(dict@),
                Stubs { todos: views(old(stubs)@), parents: texts(old(parents)@) },
                auto_add,
                parent@,
                dep@,
            ) == Err::<Stubs, TodoErrorView>(e@),
        },
{
    let name = bare(dep);
    let marked = dep.len() > 0 && dep[0] == TILDE;
    if position(dict, name.as_slice()) < dict.len() {
        if marked {
            let by = slice(parent, 0, parent.len());
            assert(by@ =~= parent@);
            return Err(TodoError::MarkedDefinition { name, parent: by });
        }
        return Ok(());
    }
    let k = position(stubs, name.as_slice());
    if k < stubs.len() {
        proof {
            lemma_view(stubs@[k as int]);
        }
        let done = match stubs[k].status {
            Status::Completed => true,
            _ => false,
        };
        if done != marked {
            let first = slice(parents[k].as_slice(), 0, parents[k].len());
            assert(first@ =~= parents@[k as int]@);
            let second = slice(parent, 0, parent.len());
            assert(second@ =~= parent@);
            return Err(TodoError::ConflictingMarkers { name, first, second });
        }
        return Ok(());
    }
    if !auto_add {
        return Err(TodoError::MissingTodo { name });
    }
    let is_root = name.len() == 1 && name[0] == SLASH;
    assert(is_root == (name@ == root_name())) by {
        if is_root {
            assert(name@ =~= root_name());
        }
    }
    if is_root {
        return Err(TodoError::ReservedName);
    }
    let raw = slice(dep, 0, dep.len());
    assert(raw@ =~= dep@);
    let none: Vec<Vec<u8>> = Vec::new();
    assert(texts(none@) =~= Seq::<Seq<u8>>::empty());
    let stub = match Todo::new(raw, Vec::new(), Vec::new(), Vec::new(), Vec::new()) {
        Err(e) => {
            return Err(e);
        },
        Ok(stub) => stub,
    };
    let ghost todos = views(stubs@);
    let ghost names = texts(parents@);
    stubs.push(stub);
    let by = slice(parent, 0, parent.len());
    assert(by@ =~= parent@);
    parents.push(by);
    assert(views(stubs@) =~= todos.push(stub@));
    assert(texts(parents@) =~= names.push(parent@));
    Ok(())
}

impl Tree {
    /// Resolves the markdown escapes of a text: a backslash in front of a
    /// character that markdown lets it escape is dropped, any other stays;
    /// every tab becomes a blank.
    pub fn escape(input: &[u8]) -> (r: Vec<u8>)
        ensures
            r@ == escaped(input@),
    {
        let mut out: Vec<u8> = Vec::new();
        let mut slash = false;
        let mut i: usize = 0;
        assert(out@ + escaped_from(input@, 0, false) =~= escaped(input@));
        while i < input.len()
            invariant
                i <= input.len(),
                out@ + escaped_from(input@, i as int, slash) == escaped(input@),
            decreases input.len() - i,
        {
            let ghost before = out@;
            let ghost rest = escaped_from(input@, i as int + 1, false);
            let c = if input[i] == TAB {
                SPACE
            } else {
                input[i]
            };
            if slash {
                if !special(c) {
                    out.push(BACKSLASH);
                }
                out.push(c);
                slash = false;
                proof {
                    let head = if is_special(c) {
                        Seq::<u8>::empty()
                    } else {
                        seq![BACKSLASH]
                    };
                    assert(before + (head + seq![c] + rest) =~= out@ + rest);
                }
            } else if c == BACKSLASH {
                slash = true;
            } else {
                out.push(c);
                assert(before + (seq![c] + rest) =~= out@ + rest);
            }
            i = i + 1;
        }
        let ghost before = out@;
        if slash {
            out.push(BACKSLASH);
            assert(out@ =~= before + seq![BACKSLASH]);
        } else {
            assert(out@ =~= before + Seq::<u8>::empty());
        }
        out
    }

    /// Files what has been gathered of a definition: as the lines in front
    /// of the first header if it has no name, else as a new todo at the end of
    /// `dict`.
    ///
    /// Without a name, anything but plain lines is an error. With a name,
    /// the comment lines are joined into one by `separator` unless that is
    /// a newline, and the todo is made as [`Todo::new`] makes it; a name that
    /// `dict` holds already is an error. An error leaves `dict` and
    /// `prelude` as they were.
    pub fn new_todo_if_any(
        dict: &mut Vec<Todo>,
        prelude: &mut Vec<Vec<u8>>,
        separator: &[u8],
        name: Vec<u8>,
        owner: Vec<u8>,
        comment: Vec<Vec<u8>>,
        dependencies: Vec<Vec<u8>>,
        auxilaries: Vec<Vec<u8>>,
    ) -> (r: Result<(), TodoError>)
        ensures
            match r {
                Ok(_) => filed(
                    Notes { dict: views(old(dict)@), prelude: texts(old(prelude)@) },
                    DraftView {
                        name: name@,
                        owner: owner@,
                        comment: texts(comment@),
                        dependencies: texts(dependencies@),
                        auxilaries: texts(auxilaries@),
                    },
                    separator@,
                ) == Ok::<Notes, TodoErrorView>(
                    Notes { dict: views(final(dict)@), prelude: texts(final(prelude)@) },
                ),
                Err(e) => {
                    &&& filed(
                        Notes { dict: views(old(dict)@), prelude: texts(old(prelude)@) },
                        DraftView {
                            name: name@,
                            owner: owner@,
                            comment: texts(comment@),
                            dependencies: texts(dependencies@),
                            auxilaries: texts(auxilaries@),
                        },
                        separator@,
                    ) == Err::<Notes, TodoErrorView>(e@)
                    &&& final(dict)@ == old(dict)@
                    &&& final(prelude)@ == old(prelude)@
                },
            },
            old(dict)@.is_prefix_of(final(dict)@),
    {
        if name.len() == 0 {
            if owner.len() == 0 && comment.len() == 0 && dependencies.len() == 0 {
                *prelude = auxilaries;
                return Ok(());
            } else {
                return Err(TodoError::MissingHeader);
            }
        }
        let kept: Vec<Vec<u8>> = if separator.len() == 1 && separator[0] == NEWLINE {
            assert(separator@ =~= seq![NEWLINE]);
            comment
        } else {
            let one = join(&comment, separator);
            let mut kept: Vec<Vec<u8>> = Vec::new();
            kept.push(one);
            assert(texts(kept@) =~= seq![joined(texts(comment@), separator@)]);
            kept
        };
        assert(texts(kept@) == kept_comment(texts(comment@), separator@));
        let todo = match Todo::new(name, owner, kept, dependencies, auxilaries) {
            Err(e) => {
                return Err(e);
            },
            Ok(todo) => todo,
        };
        proof {
            lemma_view(todo);
        }
        if position(dict, todo.name.as_slice()) < dict.len() {
            let name = slice(todo.name.as_slice(), 0, todo.name.len());
            assert(name@ =~= todo.name@);
            return Err(TodoError::DuplicateName { name });
        }
        let ghost before = views(dict@);
        dict.push(todo);
        assert(views(dict@) =~= before.push(todo@));
        Ok(())
    }

    /// Reads one line into the draft, or, if the line is a header, files the
    /// draft and opens the next.
    fn read_line(
        dict: &mut Vec<Todo>,
        prelude: &mut Vec<Vec<u8>>,
        separator: &[u8],
        draft: &mut Draft,
        line: &[u8],
        hide_comment: bool,
        hide_owner: bool,
    ) -> (r: Result<(), TodoError>)
        ensures
            match r {
                Ok(_) => read_line(
                    Notes { dict: views(old(dict)@), prelude: texts(old(prelude)@) },
                    old(draft)@,
                    line@,
                    Reading { separator: separator@, hide_comment, hide_owner },
                ) == Ok::<(Notes, DraftView), TodoErrorView>(
                    (
                        Notes { dict: views(final(dict)@), prelude: texts(final(prelude)@) },
                        final(draft)@,
                    ),
                ),
                Err(e) => {
                    &&& read_line(
                        Notes { dict: views(old(dict)@), prelude: texts(old(prelude)@) },
                        old(draft)@,
                        line@,
                        Reading { separator: separator@, hide_comment, hide_owner },
                    ) == Err::<(Notes, DraftView), TodoErrorView>(e@)
                    &&& left_by_line(
                        Notes { dict: views(old(dict)@), prelude: texts(old(prelude)@) },
                        old(draft)@,
                        line@,
                        Reading { separator: separator@, hide_comment, hide_owner },
                    ) == (Notes { dict: views(final(dict)@), prelude: texts(final(prelude)@) })
                },
            },
            old(dict)@.is_prefix_of(final(dict)@),
    {
        reveal(read_line);
        let ln = trim(line);
        if starts_with(ln.as_slice(), header_bytes().as_slice()) {
            let name = trim(slice(ln.as_slice(), 2, ln.len()).as_slice());
            let plain = bare(name.as_slice());
            let mut done = Draft::blank(name);
            std::mem::swap(draft, &mut done);
            match Self::new_todo_if_any(
                dict,
                prelude,
                separator,
                done.name,
                done.owner,
                done.comment,
                done.dependencies,
                done.auxilaries,
            ) {
                Err(e) => {
                    return Err(e);
                },
                Ok(_) => {},
            }
            let is_root = plain.len() == 1 && plain[0] == SLASH;
            assert(is_root == (plain@ == root_name())) by {
                if is_root {
                    assert(plain@ =~= root_name());
                }
            }
            if plain.len() == 0 || is_root {
                return Err(TodoError::ReservedName);
            }
        } else if starts_with(ln.as_slice(), owner_bytes().as_slice()) {
            if !hide_owner {
                let part = trim(slice(ln.as_slice(), 3, ln.len()).as_slice());
                if draft.owner.len() > 0 {
                    draft.owner.push(SPACE);
                    append(&mut draft.owner, part.as_slice());
                    assert(draft.owner@ =~= old(draft).owner@ + seq![SPACE] + part@);
                } else {
                    append(&mut draft.owner, part.as_slice());
                    assert(draft.owner@ =~= part@);
                }
            }
        } else if starts_with(ln.as_slice(), comment_bytes().as_slice()) {
            if !hide_comment {
                let part = trim(slice(ln.as_slice(), 3, ln.len()).as_slice());
                let ghost before = texts(draft.comment@);
                draft.comment.push(part);
                assert(texts(draft.comment@) =~= before.push(part@));
            }
        } else if starts_with(ln.as_slice(), dependency_bytes().as_slice()) {
            let mut more = split_words(slice(ln.as_slice(), 3, ln.len()).as_slice());
            let ghost before = texts(draft.dependencies@);
            let ghost added = texts(more@);
            draft.dependencies.append(&mut more);
            assert(texts(draft.dependencies@) =~= before + added);
            let me = bare(draft.name.as_slice());
            if names(&draft.dependencies, me.as_slice()) < draft.dependencies.len() {
                return Err(TodoError::SelfDependency { name: me });
            }
        } else {
            let ghost before = texts(draft.auxilaries@);
            draft.auxilaries.push(ln);
            assert(texts(draft.auxilaries@) =~= before.push(ln@));
        }
        Ok(())
    }

    /// Reads the text of one file: gathers its definitions and files each
    /// as a todo at the end of `dict`, in their order, and leaves the lines in
    /// front of the first definition in `prelude`.
    ///
    /// The text is taken line by line, markdown escapes resolved, each line
    /// without the white space around it. With `hide_owner` or
    /// `hide_comment`, owner or comment lines are passed over. When a line
    /// is refused, `dict` holds what was filed before it: the todos that it
    /// held, and behind them those of the definitions that were complete.
    pub fn readmd(
        dict: &mut Vec<Todo>,
        prelude: &mut Vec<Vec<u8>>,
        separator: &[u8],
        text: &[u8],
        hide_comment: bool,
        hide_owner: bool,
    ) -> (r: Result<(), TodoError>)
        ensures
            match r {
                Ok(_) => read(
                    Notes { dict: views(old(dict)@), prelude: texts(old(prelude)@) },
                    text@,
                    Reading { separator: separator@, hide_comment, hide_owner },
                ) == Ok::<Notes, TodoErrorView>(
                    Notes { dict: views(final(dict)@), prelude: texts(final(prelude)@) },
                ),
                Err(e) => {
                    &&& read(
                        Notes { dict: views(old(dict)@), prelude: texts(old(prelude)@) },
                        text@,
                        Reading { separator: separator@, hide_comment, hide_owner },
                    ) == Err::<Notes, TodoErrorView>(e@)
                    &&& left_by_read(
                        Notes { dict: views(old(dict)@), prelude: texts(old(prelude)@) },
                        text@,
                        Reading { separator: separator@, hide_comment, hide_owner },
                    ) == (Notes { dict: views(final(dict)@), prelude: texts(final(prelude)@) })
                },
            },
            old(dict)@.is_prefix_of(final(dict)@),
    {
        let ghost how = Reading { separator: separator@, hide_comment, hide_owner };
        let ghost start = Notes { dict: views(dict@), prelude: texts(prelude@) };
        let buffer = Self::escape(text);
        let all = split_lines(buffer.as_slice());
        let mut draft = Draft::blank(Vec::new());
        let mut i: usize = 0;
        while i < all.len()
            invariant
                i <= all.len(),
                how == (Reading { separator: separator@, hide_comment, hide_owner }),
                texts(all@) == lines(escaped(text@)),
                start == (Notes { dict: views(old(dict)@), prelude: texts(old(prelude)@) }),
                read_lines(
                    Notes { dict: views(dict@), prelude: texts(prelude@) },
                    draft@,
                    texts(all@),
                    i as int,
                    how,
                ) == read(start, text@, how),
                read(start, text@, how) is Err ==> left_by_lines(
                    Notes { dict: views(dict@), prelude: texts(prelude@) },
                    draft@,
                    texts(all@),
                    i as int,
                    how,
                ) == left_by_read(start, text@, how),
                old(dict)@.is_prefix_of(dict@),
            decreases all.len() - i,
        {
            match Self::read_line(
                dict,
                prelude,
                separator,
                &mut draft,
                all[i].as_slice(),
                hide_comment,
                hide_owner,
            ) {
                Err(e) => {
                    return Err(e);
                },
                Ok(_) => {},
            }
            i = i + 1;
        }
        Self::new_todo_if_any(
            dict,
            prelude,
            separator,
            draft.name,
            draft.owner,
            draft.comment,
            draft.dependencies,
            draft.auxilaries,
        )
    }

    /// Checks every dependency against the definitions and adds, behind the
    /// todos of `dict`, a todo for each name that is referred to but not
    /// defined, in the order of the first references.
    ///
    /// A reference to a defined todo must carry no completion marker; the
    /// references to an undefined todo must agree on whether it is
    /// completed. Without `auto_add`, a reference to an undefined todo is an
    /// error. An error leaves `dict` as it was.
    pub fn check_todos_in_dep_only(dict: &mut Vec<Todo>, auto_add: bool) -> (r: Result<
        (),
        TodoError,
    >)
        ensures
            match r {
                Ok(_) => with_stubs(views(old(dict)@), auto_add) == Ok::<
                    Seq<TodoView>,
                    TodoErrorView,
                >(views(final(dict)@)),
                Err(e) => with_stubs(views(old(dict)@), auto_add) == Err::<
                    Seq<TodoView>,
                    TodoErrorView,
                >(e@) && final(dict)@ == old(dict)@,
            },
            old(dict)@.is_prefix_of(final(dict)@),
    {
        let ghost defined = views(dict@);
        let mut stubs: Vec<Todo> = Vec::new();
        let mut parents: Vec<Vec<u8>> = Vec::new();
        assert(views(stubs@) =~= Seq::<TodoView>::empty());
        assert(texts(parents@) =~= Seq::<Seq<u8>>::empty());
        let ghost total = with_dependencies(
            defined,
            Stubs { todos: Seq::empty(), parents: Seq::empty() },
            auto_add,
            0,
            0,
        );
        let mut i: usize = 0;
        while i < dict.len()
            invariant
                i <= dict.len(),
                dict@ == old(dict)@,
                defined == views(dict@),
                stubs@.len() == parents@.len(),
                total == with_dependencies(
                    defined,
                    Stubs { todos: Seq::empty(), parents: Seq::empty() },
                    auto_add,
                    0,
                    0,
                ),
                with_dependencies(
                    defined,
                    Stubs { todos: views(stubs@), parents: texts(parents@) },
                    auto_add,
                    i as int,
                    0,
                ) == total,
            decreases dict.len() - i,
        {
            proof {
                lemma_view(dict@[i as int]);
            }
            let mut j: usize = 0;
            while j < dict[i].dependencies.len()
                invariant
                    i < dict.len(),
                    j <= dict@[i as int].dependencies@.len(),
                    dict@ == old(dict)@,
                    defined == views(dict@),
                    defined[i as int].name == dict@[i as int].name@,
                    defined[i as int].dependencies == texts(dict@[i as int].dependencies@),
                    stubs@.len() == parents@.len(),
                    total == with_dependencies(
                        defined,
                        Stubs { todos: Seq::empty(), parents: Seq::empty() },
                        auto_add,
                        0,
                        0,
                    ),
                    with_dependencies(
                        defined,
                        Stubs { todos: views(stubs@), parents: texts(parents@) },
                        auto_add,
                        i as int,
                        j as int,
                    ) == total,
                decreases dict@[i as int].dependencies@.len() - j,
            {
                match check_dependency(
                    dict,
                    &mut stubs,
                    &mut parents,
                    auto_add,
                    dict[i].name.as_slice(),
                    dict[i].dependencies[j].as_slice(),
                ) {
                    Err(e) => {
                        return Err(e);
                    },
                    Ok(_) => {},
                }
                j = j + 1;
            }
            i = i + 1;
        }
        let ghost before = dict@;
        let ghost added = stubs@;
        dict.append(&mut stubs);
        assert(views(dict@) =~= views(before) + views(added));
        Ok(())
    }

    /// What holds of every tree: its todos can be told apart by their
    /// names, and in a table the columns are wide enough for every todo.
    #[verifier::type_invariant]
    spec fn drawable(self) -> bool {
        &&& distinct_names(views(self.dict@))
        &&& (self.format == Format::Term || self.format == Format::Html) ==> fits(
            self.root@,
            0,
            self.maxlens@,
        )
    }

    /// The tree as a mathematical value.
    pub closed spec fn model(self) -> TreeView {
        TreeView {
            root: self.root@,
            format: self.format,
            widths: self.maxlens@,
            dict: views(self.dict@),
            separator: self.separator@,
            prelude: texts(self.auxilaries@),
            no_color: self.no_color,
            reverse: self.reverse,
        }
    }

    /// Reads the texts of the files in order, as [`Tree::readmd`] reads
    /// each.
    fn read_files(
        dict: &mut Vec<Todo>,
        prelude: &mut Vec<Vec<u8>>,
        separator: &[u8],
        inputs: &Vec<Vec<u8>>,
        hide_comment: bool,
        hide_owner: bool,
    ) -> (r: Result<(), TodoError>)
        ensures
            match r {
                Ok(_) => read_all(
                    Notes { dict: views(old(dict)@), prelude: texts(old(prelude)@) },
                    texts(inputs@),
                    0,
                    Reading { separator: separator@, hide_comment, hide_owner },
                ) == Ok::<Notes, TodoErrorView>(
                    Notes { dict: views(final(dict)@), prelude: texts(final(prelude)@) },
                ),
                Err(e) => read_all(
                    Notes { dict: views(old(dict)@), prelude: texts(old(prelude)@) },
                    texts(inputs@),
                    0,
                    Reading { separator: separator@, hide_comment, hide_owner },
                ) == Err::<Notes, TodoErrorView>(e@),
            },
    {
        let ghost how = Reading { separator: separator@, hide_comment, hide_owner };
        let ghost start = Notes { dict: views(dict@), prelude: texts(prelude@) };
        let mut k: usize = 0;
        while k < inputs.len()
            invariant
                k <= inputs.len(),
                how == (Reading { separator: separator@, hide_comment, hide_owner }),
                start == (Notes { dict: views(old(dict)@), prelude: texts(old(prelude)@) }),
                read_all(
                    Notes { dict: views(dict@), prelude: texts(prelude@) },
                    texts(inputs@),
                    k as int,
                    how,
                ) == read_all(start, texts(inputs@), 0, how),
            decreases inputs.len() - k,
        {
            match Self::readmd(
                dict,
                prelude,
                separator,
                inputs[k].as_slice(),
                hide_comment,
                hide_owner,
            ) {
                Err(e) => {
                    return Err(e);
                },
                Ok(_) => {},
            }
            k = k + 1;
        }
        Ok(())
    }

    /// Gathers the todos of the files: reads the files, finds the todos to
    /// stand below the root, and adds the stubs.
    fn gather(
        inputs: &Vec<Vec<u8>>,
        targets: &Vec<Vec<u8>>,
        separator: &[u8],
        auto_add: bool,
        hide_comment: bool,
        hide_owner: bool,
    ) -> (r: Result<(Vec<Todo>, Todo, Vec<Vec<u8>>), TodoError>)
        ensures
            match r {
                Ok((dict, root, prelude)) => forall|req: Request|
                    req.inputs == texts(inputs@) && req.targets == texts(targets@)
                        && req.separator == separator@ && req.auto_add == auto_add
                        && req.hide_comment == hide_comment && req.hide_owner == hide_owner
                        ==> #[trigger] gathered(req) == Ok::<
                        (Seq<TodoView>, TodoView, Seq<Seq<u8>>),
                        TodoErrorView,
                    >((views(dict@), root@, texts(prelude@))),
                Err(e) => forall|req: Request|
                    req.inputs == texts(inputs@) && req.targets == texts(targets@)
                        && req.separator == separator@ && req.auto_add == auto_add
                        && req.hide_comment == hide_comment && req.hide_owner == hide_owner
                        ==> #[trigger] gathered(req) == Err::<
                        (Seq<TodoView>, TodoView, Seq<Seq<u8>>),
                        TodoErrorView,
                    >(e@),
            },
            r is Ok ==> distinct_names(views(r->Ok_0.0@)),
    {
        let mut dict: Vec<Todo> = Vec::new();
        let mut prelude: Vec<Vec<u8>> = Vec::new();
        assert(views(dict@) =~= Seq::<TodoView>::empty());
        assert(texts(prelude@) =~= Seq::<Seq<u8>>::empty());
        match Self::read_files(
            &mut dict,
            &mut prelude,
            separator,
            inputs,
            hide_comment,
            hide_owner,
        ) {
            Err(e) => {
                return Err(e);
            },
            Ok(_) => {},
        }
        if dict.len() == 0 {
            return Err(TodoError::NoTodo);
        }
        let ghost defined = views(dict@);
        let dependencies = if targets.len() == 0 {
            let names = top_names(&dict);
            if names.len() == 0 {
                return Err(TodoError::NoRoot);
            }
            names
        } else {
            copy_all(targets)
        };
        let root = Todo::root(dependencies);
        assert(root@ == seed(texts(targets@), defined));
        match Self::check_todos_in_dep_only(&mut dict, auto_add) {
            Err(e) => {
                return Err(e);
            },
            Ok(_) => {},
        }
        proof {
            let req = Request {
                inputs: texts(inputs@),
                owners: Seq::empty(),
                targets: texts(targets@),
                term_width: 0,
                format: Seq::empty(),
                hide_done: false,
                dpth_limit: 0,
                separator: separator@,
                no_color: false,
                auto_add,
                hide_comment,
                hide_owner,
                reverse: false,
            };
            lemma_gathered_distinct(req);
        }
        Ok((dict, root, prelude))
    }

    /// Grows the tree from the todos gathered: resolves it from the root,
    /// lays it out, and checks that every owner asked for was met.
    #[verifier::rlimit(30)]
    fn grow(
        dict: Vec<Todo>,
        root: Todo,
        prelude: Vec<Vec<u8>>,
        owners: &Vec<Vec<u8>>,
        term_width: usize,
        format: Format,
        hide_done: bool,
        dpth_limit: i32,
        separator: &[u8],
        no_color: bool,
        reverse: bool,
    ) -> (r: Result<Tree, TodoError>)
        requires
            root@.name == root_name(),
            distinct_names(views(dict@)),
        ensures
            match r {
                Ok(tree) => forall|req: Request|
                    req.owners == texts(owners@) && req.term_width == term_width
                        && req.hide_done == hide_done && req.dpth_limit == dpth_limit
                        && req.separator == separator@ && req.no_color == no_color && req.reverse
                        == reverse ==> #[trigger] grown(
                        req,
                        format,
                        views(dict@),
                        root@,
                        texts(prelude@),
                    ) == Ok::<TreeView, TodoErrorView>(tree@),
                Err(e) => forall|req: Request|
                    req.owners == texts(owners@) && req.term_width == term_width
                        && req.hide_done == hide_done && req.dpth_limit == dpth_limit
                        && req.separator == separator@ && req.no_color == no_color && req.reverse
                        == reverse ==> #[trigger] grown(
                        req,
                        format,
                        views(dict@),
                        root@,
                        texts(prelude@),
                    ) == Err::<TreeView, TodoErrorView>(e@),
            },
    {
        let width: usize = if term_width == 0 {
            DEFAULT_WIDTH
        } else {
            term_width
        };
        let mut root = root;
        let mut visited = flags(dict.len());
        let mut path = flags(dict.len());
        let mut used = flags(owners.len());
        let mut maxlens: [usize; 3] = [0, 0, 0];
        proof {
            lemma_unvisited_bound(visited@);
        }
        let ghost grown = built(
            views(dict@),
            Options { hide: hide_done, limit: dpth_limit as int, owners: texts(owners@) },
            root@,
            Walk { visited: visited@, path: path@, used: used@ },
            0,
            Extent::of(maxlens@),
            width as nat,
        );
        match root.build_tree(
            &mut visited,
            &dict,
            &mut maxlens,
            &mut path,
            0,
            width,
            hide_done,
            dpth_limit,
            owners,
            &mut used,
        ) {
            Err(e) => {
                return Err(e);
            },
            Ok(_) => {},
        }
        let j = unused(&used);
        if j < owners.len() {
            let owner = slice(owners[j].as_slice(), 0, owners[j].len());
            assert(owner@ =~= owners@[j as int]@);
            return Err(TodoError::UnknownOwner { owner });
        }
        let joiner = slice(separator, 0, separator.len());
        assert(joiner@ =~= separator@);
        let tree = Tree {
            root,
            format,
            maxlens,
            dict,
            separator: joiner,
            auxilaries: prelude,
            no_color,
            reverse,
        };
        proof {
            let widths = grown->Ok_0.3;
            assert(tree@.widths =~= seq![
                capped(widths.name),
                capped(widths.owner),
                capped(widths.comment),
            ]);
            assert(tree@.root == grown->Ok_0.0);
        }
        Ok(tree)
    }

    /// Makes the tree of the todos that the files define.
    ///
    /// `inputs` holds the texts of the files. `targets` names the todos to
    /// stand below the root; if it is empty, the todos that no todo depends
    /// on stand there. `owners` names the owners whose todos are shown, none
    /// meaning all. `term_width` is the width to lay tables out for, 0
    /// meaning 80 columns. `format` names the format, nothing meaning `term`.
    /// The other arguments are those of reading ([`Tree::readmd`]), of adding
    /// stubs ([`Tree::check_todos_in_dep_only`]) and of resolving
    /// ([`Todo::build_tree`]).
    pub fn new(
        inputs: &Vec<Vec<u8>>,
        owners: &Vec<Vec<u8>>,
        targets: &Vec<Vec<u8>>,
        term_width: usize,
        format: &[u8],
        hide_done: bool,
        dpth_limit: i32,
        separator: &[u8],
        no_color: bool,
        auto_add: bool,
        hide_comment: bool,
        hide_owner: bool,
        reverse: bool,
    ) -> (r: Result<Tree, TodoError>)
        ensures
            match r {
                Ok(tree) => planted(
                    Request {
                        inputs: texts(inputs@),
                        owners: texts(owners@),
                        targets: texts(targets@),
                        term_width: term_width as nat,
                        format: format@,
                        hide_done,
                        dpth_limit: dpth_limit as int,
                        separator: separator@,
                        no_color,
                        auto_add,
                        hide_comment,
                        hide_owner,
                        reverse,
                    },
                ) == Ok::<TreeView, TodoErrorView>(tree@),
                Err(e) => planted(
                    Request {
                        inputs: texts(inputs@),
                        owners: texts(owners@),
                        targets: texts(targets@),
                        term_width: term_width as nat,
                        format: format@,
                        hide_done,
                        dpth_limit: dpth_limit as int,
                        separator: separator@,
                        no_color,
                        auto_add,
                        hide_comment,
                        hide_owner,
                        reverse,
                    },
                ) == Err::<TreeView, TodoErrorView>(e@),
            },
    {
        let ghost req = Request {
            inputs: texts(inputs@),
            owners: texts(owners@),
            targets: texts(targets@),
            term_width: term_width as nat,
            format: format@,
            hide_done,
            dpth_limit: dpth_limit as int,
            separator: separator@,
            no_color,
            auto_add,
            hide_comment,
            hide_owner,
            reverse,
        };
        let kind = match Format::from_name(format) {
            Err(e) => {
                return Err(e);
            },
            Ok(kind) => kind,
        };
        if reverse && !kind.is_table() {
            return Err(TodoError::ReverseUnsupported);
        }
        let (dict, root, prelude) = match Self::gather(
            inputs,
            targets,
            separator,
            auto_add,
            hide_comment,
            hide_owner,
        ) {
            Err(e) => {
                assert(gathered(req) == Err::<
                    (Seq<TodoView>, TodoView, Seq<Seq<u8>>),
                    TodoErrorView,
                >(e@));
                return Err(e);
            },
            Ok(parts) => parts,
        };
        assert(gathered(req) == Ok::<(Seq<TodoView>, TodoView, Seq<Seq<u8>>), TodoErrorView>(
            (views(dict@), root@, texts(prelude@)),
        ));
        let ghost d = views(dict@);
        let ghost t = root@;
        let ghost p = texts(prelude@);
        let r = Self::grow(
            dict,
            root,
            prelude,
            owners,
            term_width,
            kind,
            hide_done,
            dpth_limit,
            separator,
            no_color,
            reverse,
        );
        proof {
            let g = grown(req, kind, d, t, p);
            if r is Ok {
                assert(g == Ok::<TreeView, TodoErrorView>(r->Ok_0@));
            } else {
                assert(g == Err::<TreeView, TodoErrorView>(r->Err_0@));
            }
        }
        r
    }

    /// The root, with the resolved tree below it.
    pub fn root(&self) -> (r: &Todo)
        ensures
            r@ == self@.root,
    {
        &self.root
    }

    /// The output format.
    pub fn format(&self) -> (r: Format)
        ensures
            r == self@.format,
    {
        self.format
    }

    /// The widths of the name, owner and comment columns.
    pub fn maxlens(&self) -> (r: &[usize; 3])
        ensures
            r@ == self@.widths,
    {
        &self.maxlens
    }

    /// The todos, in the order of their definitions, the undefined ones
    /// that were added for their names behind them. No two have the same
    /// name.
    pub fn dict(&self) -> (r: &Vec<Todo>)
        ensures
            views(r@) == self@.dict,
            distinct_names(views(r@)),
    {
        proof {
            use_type_invariant(self);
        }
        &self.dict
    }

    /// The lines in front of the first definition of the file read last.
    pub fn auxilaries(&self) -> (r: &Vec<Vec<u8>>)
        ensures
            texts(r@) == self@.prelude,
    {
        &self.auxilaries
    }

    /// The tree in its format.
    pub fn render(&self) -> (r: Vec<u8>)
        ensures
            r@ == self@.rendered(),
    {
        proof {
            use_type_invariant(self);
        }
        let mut out: Vec<u8> = Vec::new();
        match self.format {
            Format::Md => {
                let mut i: usize = 0;
                assert(texts(self.auxilaries@).take(0) =~= Seq::<Seq<u8>>::empty());
                while i < self.auxilaries.len()
                    invariant
                        i <= self.auxilaries.len(),
                        out@ == unlines(texts(self.auxilaries@).take(i as int)),
                    decreases self.auxilaries.len() - i,
                {
                    let mut line: Vec<u8> = Vec::new();
                    append(&mut line, self.auxilaries[i].as_slice());
                    line.push(NEWLINE);
                    proof {
                        let l = texts(self.auxilaries@)[i as int];
                        lemma_unlines_one(l);
                        assert(line@ =~= unlines(seq![l]));
                        lemma_unlines_add(texts(self.auxilaries@).take(i as int), seq![l]);
                        assert(texts(self.auxilaries@).take(i as int) + seq![l] =~= texts(
                            self.auxilaries@,
                        ).take(i as int + 1));
                    }
                    append(&mut out, line.as_slice());
                    i = i + 1;
                }
                assert(texts(self.auxilaries@).take(i as int) =~= texts(self.auxilaries@));
            },
            _ => {},
        }
        let mut connectors: Vec<bool> = Vec::new();
        assert(connectors@ =~= Seq::<bool>::empty());
        self.root.fmt_tree(
            &mut out,
            &mut connectors,
            &self.maxlens,
            &self.format,
            self.no_color,
            self.reverse,
        );
        out
    }
}

impl View for Tree {
    type V = TreeView;

    closed spec fn view(&self) -> TreeView {
        self.model()
    }
}

} // verus!
