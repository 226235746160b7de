//! The input grammar: what the lines of a todo file mean.
use crate::TodoErrorView;
use crate::resolve::find;
use crate::text::{joined, lines, texts, trimmed, words, BACKSLASH, NEWLINE, SPACE, TAB};
use crate::todo::{bare_name, new_todo, root_name, TodoView};
use vstd::prelude::*;

verus! {

/// `# `, which opens the definition of a todo.
pub open spec fn header_mark() -> Seq<u8> {
    seq![35u8, 32u8]
}

/// `- @`, which opens an owner line.
pub open spec fn owner_mark() -> Seq<u8> {
    seq![45u8, 32u8, 64u8]
}

/// `- %`, which opens a comment line.
pub open spec fn comment_mark() -> Seq<u8> {
    seq![45u8, 32u8, 37u8]
}

/// `- :`, which opens a line of dependencies.
pub open spec fn dependency_mark() -> Seq<u8> {
    seq![45u8, 32u8, 58u8]
}

/// The header mark.
pub fn header_bytes() -> (r: [u8; 2])
    ensures
        r@ == header_mark(),
{
    let r: [u8; 2] = [35, 32];
    assert(r@ =~= header_mark());
    r
}

/// The owner mark.
pub fn owner_bytes() -> (r: [u8; 3])
    ensures
        r@ == owner_mark(),
{
    let r: [u8; 3] = [45, 32, 64];
    assert(r@ =~= owner_mark());
    r
}

/// The comment mark.
pub fn comment_bytes() -> (r: [u8; 3])
    ensures
        r@ == comment_mark(),
{
    let r: [u8; 3] = [45, 32, 37];
    assert(r@ =~= comment_mark());
    r
}

/// The dependency mark.
pub fn dependency_bytes() -> (r: [u8; 3])
    ensures
        r@ == dependency_mark(),
{
    let r: [u8; 3] = [45, 32, 58];
    assert(r@ =~= dependency_mark());
    r
}

/// The characters that markdown lets a backslash escape:
/// ``\ ` * _ { } [ ] ( ) # + - . !``.
pub open spec fn is_special(b: u8) -> bool {
    ||| b == 92 || b == 96 || b == 42 || b == 95 || b == 123 || b == 125
    ||| b == 91 || b == 93 || b == 40 || b == 41 || b == 35 || b == 43
    ||| b == 45 || b == 46 || b == 33
}

/// `s` from index `i` on with markdown escapes resolved; `slash` says that
/// the byte before `i` was a backslash still to be dealt with.
pub open spec fn escaped_from(s: Seq<u8>, i: int, slash: bool) -> Seq<u8>
    decreases s.len() - i,
{
    if i < 0 || i >= s.len() {
        if slash {
            seq![BACKSLASH]
        } else {
            Seq::empty()
        }
    } else {
        let c = if s[i] == TAB {
            SPACE
        } else {
            s[i]
        };
        if slash {
            (if is_special(c) {
                Seq::empty()
            } else {
                seq![BACKSLASH]
            }) + seq![c] + escaped_from(s, i + 1, false)
        } else if c == BACKSLASH {
            escaped_from(s, i + 1, true)
        } else {
            seq![c] + escaped_from(s, i + 1, false)
        }
    }
}

/// The text of a file as its lines are read: every tab is a blank, and a
/// backslash in front of a character that markdown lets it escape is
/// dropped. Any other backslash stays.
pub open spec fn escaped(s: Seq<u8>) -> Seq<u8> {
    escaped_from(s, 0, false)
}

/// The parts of a definition as they are gathered while its lines are read.
pub ghost struct DraftView {
    /// The header as written, a completion marker included; empty before
    /// the first header.
    pub name: Seq<u8>,
    pub owner: Seq<u8>,
    pub comment: Seq<Seq<u8>>,
    pub dependencies: Seq<Seq<u8>>,
    pub auxilaries: Seq<Seq<u8>>,
}

/// What has been read so far.
pub ghost struct Notes {
    /// The todos defined, in the order of their definitions.
    pub dict: Seq<TodoView>,
    /// The lines in front of the first definition of the file read last.
    pub prelude: Seq<Seq<u8>>,
}

/// How the files are read.
pub ghost struct Reading {
    /// What joins the comment lines of a todo into one; a newline keeps them
    /// apart.
    pub separator: Seq<u8>,
    /// Whether comments are left out.
    pub hide_comment: bool,
    /// Whether owners are left out.
    pub hide_owner: bool,
}

/// The draft at the start of a file, and after a header that names `name`.
pub open spec fn blank_draft(name: Seq<u8>) -> DraftView {
    DraftView {
        name,
        owner: Seq::empty(),
        comment: Seq::empty(),
        dependencies: Seq::empty(),
        auxilaries: Seq::empty(),
    }
}

/// The comment lines as a todo keeps them: each on its own when the
/// separator is a newline, else all joined into one by the separator.
pub open spec fn kept_comment(comment: Seq<Seq<u8>>, separator: Seq<u8>) -> Seq<Seq<u8>> {
    if separator == seq![NEWLINE] {
        comment
    } else {
        seq![joined(comment, separator)]
    }
}

/// The notes once a draft is filed. A draft without a name holds what
/// stands in front of the first header: its lines become the prelude, and it
/// must hold nothing else. A draft with a name becomes a todo, which is
/// refused if its name is not fit for a todo or is taken already.
pub open spec fn filed(notes: Notes, draft: DraftView, separator: Seq<u8>) -> Result<
    Notes,
    TodoErrorView,
> {
    if draft.name.len() == 0 {
        if draft.owner.len() == 0 && draft.comment.len() == 0 && draft.dependencies.len() == 0 {
            Ok(Notes { prelude: draft.auxilaries, ..notes })
        } else {
            Err(TodoErrorView::MissingHeader)
        }
    } else {
        match new_todo(
            draft.name,
            draft.owner,
            kept_comment(draft.comment, separator),
            draft.dependencies,
            draft.auxilaries,
        ) {
            Err(e) => Err(e),
            Ok(t) => if find(notes.dict, t.name) < notes.dict.len() {
                Err(TodoErrorView::DuplicateName { name: t.name })
            } else {
                Ok(Notes { dict: notes.dict.push(t), ..notes })
            },
        }
    }
}

/// Index of the first dependency at or after `i` that names `name`, markers
/// aside (`deps.len()` when there is none).
pub open spec fn first_naming(deps: Seq<Seq<u8>>, name: Seq<u8>, i: int) -> int
    decreases deps.len() - i,
{
    if i < 0 || i >= deps.len() || bare_name(deps[i]) == name {
        i
    } else {
        first_naming(deps, name, i + 1)
    }
}

/// What a line does to the notes and the draft. The line is taken without
/// the white space around it.
///
/// * `# name` files the draft and opens a new one. The name, taken without
///   a completion marker, must not be empty nor the name of the root.
/// * `- @ owner` adds to the owner, a blank between the parts.
/// * `- % comment` adds a comment line.
/// * `- : name name` adds dependencies, none of which may name the todo
///   itself.
/// * Any other line is kept with the draft as it is.
#[verifier::opaque]
pub open spec fn read_line(notes: Notes, draft: DraftView, line: Seq<u8>, how: Reading) -> Result<
    (Notes, DraftView),
    TodoErrorView,
> {
    let ln = trimmed(line);
    if header_mark().is_prefix_of(ln) {
        let name = trimmed(ln.skip(2));
        match filed(notes, draft, how.separator) {
            Err(e) => Err(e),
            Ok(notes) => if bare_name(name).len() == 0 || bare_name(name) == root_name() {
                Err(TodoErrorView::ReservedName)
            } else {
                Ok((notes, blank_draft(name)))
            },
        }
    } else if owner_mark().is_prefix_of(ln) {
        if how.hide_owner {
            Ok((notes, draft))
        } else {
            Ok(
                (
                    notes,
                    DraftView {
                        owner: if draft.owner.len() > 0 {
                            draft.owner + seq![SPACE] + trimmed(ln.skip(3))
                        } else {
                            trimmed(ln.skip(3))
                        },
                        ..draft
                    },
                ),
            )
        }
    } else if comment_mark().is_prefix_of(ln) {
        if how.hide_comment {
            Ok((notes, draft))
        } else {
            Ok((notes, DraftView { comment: draft.comment.push(trimmed(ln.skip(3))), ..draft }))
        }
    } else if dependency_mark().is_prefix_of(ln) {
        let deps = draft.dependencies + words(ln.skip(3));
        if first_naming(deps, bare_name(draft.name), 0) < deps.len() {
            Err(TodoErrorView::SelfDependency { name: bare_name(draft.name) })
        } else {
            Ok((notes, DraftView { dependencies: deps, ..draft }))
        }
    } else {
        Ok((notes, DraftView { auxilaries: draft.auxilaries.push(ln), ..draft }))
    }
}

/// The notes as a line that is refused leaves them: a header has the draft
/// filed, if it can be, before its own name is looked at; any other line
/// leaves the notes as they were.
pub open spec fn left_by_line(notes: Notes, draft: DraftView, line: Seq<u8>, how: Reading) -> Notes {
    if header_mark().is_prefix_of(trimmed(line)) {
        match filed(notes, draft, how.separator) {
            Ok(after) => after,
            Err(_) => notes,
        }
    } else {
        notes
    }
}

/// The notes as reading the lines from the `i`-th on leaves them when it
/// fails: what was filed before the line that is refused, with what that
/// line leaves; or, if the last draft is refused, what was filed before it.
pub open spec fn left_by_lines(
    notes: Notes,
    draft: DraftView,
    text: Seq<Seq<u8>>,
    i: int,
    how: Reading,
) -> Notes
    decreases text.len() - i,
{
    if i < 0 || i >= text.len() {
        notes
    } else {
        match read_line(notes, draft, text[i], how) {
            Err(_) => left_by_line(notes, draft, text[i], how),
            Ok((notes, draft)) => left_by_lines(notes, draft, text, i + 1, how),
        }
    }
}

/// The notes as reading a file leaves them when it fails.
pub open spec fn left_by_read(notes: Notes, text: Seq<u8>, how: Reading) -> Notes {
    left_by_lines(notes, blank_draft(Seq::empty()), lines(escaped(text)), 0, how)
}

/// The notes after the lines from the `i`-th on are read and the last draft
/// is filed.
pub open spec fn read_lines(
    notes: Notes,
    draft: DraftView,
    text: Seq<Seq<u8>>,
    i: int,
    how: Reading,
) -> Result<Notes, TodoErrorView>
    decreases text.len() - i,
{
    if i < 0 || i >= text.len() {
        filed(notes, draft, how.separator)
    } else {
        match read_line(notes, draft, text[i], how) {
            Err(e) => Err(e),
            Ok((notes, draft)) => read_lines(notes, draft, text, i + 1, how),
        }
    }
}

/// The notes after a file is read.
pub open spec fn read(notes: Notes, text: Seq<u8>, how: Reading) -> Result<Notes, TodoErrorView> {
    read_lines(notes, blank_draft(Seq::empty()), lines(escaped(text)), 0, how)
}

/// The notes after the files from the `k`-th on are read.
pub open spec fn read_all(notes: Notes, inputs: Seq<Seq<u8>>, k: int, how: Reading) -> Result<
    Notes,
    TodoErrorView,
>
    decreases inputs.len() - k,
{
    if k < 0 || k >= inputs.len() {
        Ok(notes)
    } else {
        match read(notes, inputs[k], how) {
            Err(e) => Err(e),
            Ok(notes) => read_all(notes, inputs, k + 1, how),
        }
    }
}

/// The parts of a definition as they are gathered while its lines are read.
#[derive(Debug)]
pub struct Draft {
    /// The header as written, a completion marker included; empty before
    /// the first header.
    pub name: Vec<u8>,
    pub owner: Vec<u8>,
    pub comment: Vec<Vec<u8>>,
    pub dependencies: Vec<Vec<u8>>,
    pub auxilaries: Vec<Vec<u8>>,
}

impl View for Draft {
    type V = DraftView;

    open spec fn view(&self) -> DraftView {
        DraftView {
            name: self.name@,
            owner: self.owner@,
            comment: texts(self.comment@),
            dependencies: texts(self.dependencies@),
            auxilaries: texts(self.auxilaries@),
        }
    }
}

impl Draft {
    /// The draft at the start of a file, and after a header that names
    /// `name`.
    pub fn blank(name: Vec<u8>) -> (r: Draft)
        ensures
            r@ == blank_draft(name@),
    {
        let r = Draft {
            name,
            owner: Vec::new(),
            comment: Vec::new(),
            dependencies: Vec::new(),
            auxilaries: Vec::new(),
        };
        assert(r@.comment =~= Seq::<Seq<u8>>::empty());
        assert(r@.dependencies =~= Seq::<Seq<u8>>::empty());
        assert(r@.auxilaries =~= Seq::<Seq<u8>>::empty());
        r
    }
}

} // verus!
