//! What reading guarantees of the todos that it files, and with it: when a
//! tree made from files can be written as markdown and read back.
use crate::{Format, Status, TodoErrorView};
use crate::assemble::{with_dependencies, with_dependency, with_stubs, Stubs};
use crate::grammar::{
    blank_draft, comment_mark, dependency_mark, escaped, filed, header_mark, owner_mark, read,
    read_all, read_line, read_lines, DraftView, Notes, Reading,
};
use crate::laws::{headed, lemma_find_from, lemma_walk_visits};
use crate::render::{md_lines, unmarked};
use crate::resolve::{
    adopt, enter, find, fresh, in_scope, leave, unvisited, walk, Options, Visit, Walk,
};
use crate::roundtrip::{
    all_lines, is_name, is_plain_line, is_tidy, is_word, law_tree_round_trip, legible,
    lemma_words_joined, lemma_written_name, newline_free, rereads,
};
use crate::text::{
    lemma_skip_space, line_end, lines, lines_from, skip_space, skip_space_back, space_width,
    space_width_back, trimmed, word_end, words, words_from, NEWLINE, SPACE,
};
use crate::todo::{bare_name, below, lemma_below_push, lemma_below_same, name_fault, TodoView};
use crate::tree::{gathered, grown, no_flags, planted, Request};
use vstd::prelude::*;

verus! {

/// White space within a stretch of a text is white space of the text.
pub proof fn lemma_space_within(s: Seq<u8>, a: int, b: int, i: int)
    requires
        0 <= a <= b <= s.len(),
        0 <= i,
        space_width(s.subrange(a, b), i) > 0,
    ensures
        space_width(s, a + i) == space_width(s.subrange(a, b), i),
{
    let t = s.subrange(a, b);
    assert(i < t.len());
    assert(t[i] == s[a + i]);
    if i + 1 < t.len() {
        assert(t[i + 1] == s[a + i + 1]);
    }
    if i + 2 < t.len() {
        assert(t[i + 2] == s[a + i + 2]);
    }
}

/// `skip_space_back` moves backward, not below `lo`, and stops where no
/// white space ends.
pub proof fn lemma_skip_space_back(s: Seq<u8>, lo: int, end: int)
    requires
        0 <= lo <= end <= s.len(),
    ensures
        lo <= skip_space_back(s, lo, end) <= end,
        space_width_back(s, lo, skip_space_back(s, lo, end)) == 0,
    decreases end,
{
    if space_width_back(s, lo, end) > 0 {
        lemma_skip_space_back(s, lo, end - space_width_back(s, lo, end));
    }
}

/// What trimming leaves is tidy, and a stretch of the text.
pub proof fn lemma_trimmed_is_tidy(s: Seq<u8>)
    ensures
        is_tidy(trimmed(s)),
        trimmed(s) == s.subrange(
            skip_space(s, 0),
            skip_space_back(s, skip_space(s, 0), s.len() as int),
        ),
        0 <= skip_space(s, 0) <= skip_space_back(s, skip_space(s, 0), s.len() as int) <= s.len(),
{
    let a = skip_space(s, 0);
    lemma_skip_space(s, 0);
    let b = skip_space_back(s, a, s.len() as int);
    lemma_skip_space_back(s, a, s.len() as int);
    let t = s.subrange(a, b);
    let n = t.len() as int;
    if space_width(t, 0) > 0 {
        lemma_space_within(s, a, b, 0);
    }
    if n >= 1 && space_width(t, n - 1) == 1 {
        lemma_space_within(s, a, b, n - 1);
    }
    if n >= 2 && space_width(t, n - 2) == 2 {
        lemma_space_within(s, a, b, n - 2);
    }
    if n >= 3 && space_width(t, n - 3) == 3 {
        lemma_space_within(s, a, b, n - 3);
    }
}

/// A stretch of a text without newlines has none.
pub proof fn lemma_stretch_newline_free(s: Seq<u8>, a: int, b: int)
    requires
        0 <= a <= b <= s.len(),
        !s.contains(NEWLINE),
    ensures
        !s.subrange(a, b).contains(NEWLINE),
{
    let t = s.subrange(a, b);
    if t.contains(NEWLINE) {
        let k = choose|k: int| 0 <= k < t.len() && t[k] == NEWLINE;
        assert(s[a + k] == NEWLINE);
    }
}

/// What trimming leaves of a text without newlines has none.
pub proof fn lemma_trimmed_newline_free(s: Seq<u8>)
    requires
        !s.contains(NEWLINE),
    ensures
        !trimmed(s).contains(NEWLINE),
{
    lemma_trimmed_is_tidy(s);
    lemma_stretch_newline_free(
        s,
        skip_space(s, 0),
        skip_space_back(s, skip_space(s, 0), s.len() as int),
    );
}

/// `line_end` stays within the text and passes no newline.
pub proof fn lemma_line_end(s: Seq<u8>, i: int)
    requires
        0 <= i <= s.len(),
    ensures
        i <= line_end(s, i) <= s.len(),
        forall|k: int| i <= k < line_end(s, i) ==> s[k] != NEWLINE,
    decreases s.len() - i,
{
    if i < s.len() && s[i] != NEWLINE {
        lemma_line_end(s, i + 1);
    }
}

/// No line of a text holds a newline.
pub proof fn lemma_lines_newline_free(s: Seq<u8>, i: int)
    requires
        0 <= i,
    ensures
        forall|k: int|
            0 <= k < lines_from(s, i).len() ==> !(#[trigger] lines_from(s, i)[k]).contains(NEWLINE),
    decreases s.len() - i,
{
    if i < s.len() {
        let e = line_end(s, i);
        lemma_line_end(s, i);
        let l = s.subrange(i, e);
        assert(!l.contains(NEWLINE)) by {
            if l.contains(NEWLINE) {
                let k = choose|k: int| 0 <= k < l.len() && l[k] == NEWLINE;
                assert(s[i + k] == NEWLINE);
            }
        }
        if e < s.len() {
            lemma_lines_newline_free(s, e + 1);
            let rest = lines_from(s, e + 1);
            assert forall|k: int| 0 <= k < lines_from(s, i).len() implies !(
            #[trigger] lines_from(s, i)[k]).contains(NEWLINE) by {
                if k > 0 {
                    assert(lines_from(s, i)[k] == rest[k - 1]);
                }
            }
        }
    }
}

/// `word_end` stays within the text and passes no white space.
pub proof fn lemma_word_end(s: Seq<u8>, i: int)
    requires
        0 <= i <= s.len(),
    ensures
        i <= word_end(s, i) <= s.len(),
        forall|k: int| i <= k < word_end(s, i) ==> space_width(s, k) == 0,
    decreases s.len() - i,
{
    if i < s.len() && space_width(s, i) == 0 {
        lemma_word_end(s, i + 1);
    }
}

/// A newline is white space, so a word holds none.
pub proof fn lemma_word_newline_free(w: Seq<u8>)
    requires
        is_word(w),
    ensures
        !w.contains(NEWLINE),
{
    if w.contains(NEWLINE) {
        let k = choose|k: int| 0 <= k < w.len() && w[k] == NEWLINE;
        assert(space_width(w, k) == 0);
    }
}

/// The words of a text are words.
pub proof fn lemma_words_are_words(s: Seq<u8>, i: int)
    requires
        0 <= i,
    ensures
        forall|k: int| 0 <= k < words_from(s, i).len() ==> is_word(#[trigger] words_from(s, i)[k]),
    decreases s.len() - i,
{
    if i <= s.len() {
        let a = skip_space(s, i);
        lemma_skip_space(s, i);
        if a < s.len() {
            let e = word_end(s, a + 1);
            lemma_word_end(s, a + 1);
            let stop = if e >= s.len() {
                s.len() as int
            } else {
                e
            };
            let w = s.subrange(a, stop);
            assert(is_word(w)) by {
                assert forall|j: int| 0 <= j < w.len() implies space_width(w, j) == 0 by {
                    if space_width(w, j) > 0 {
                        lemma_space_within(s, a, stop, j);
                    }
                }
            }
            if e < s.len() {
                lemma_words_are_words(s, e);
                let rest = words_from(s, e);
                assert forall|k: int| 0 <= k < words_from(s, i).len() implies is_word(
                    #[trigger] words_from(s, i)[k],
                ) by {
                    if k > 0 {
                        assert(words_from(s, i)[k] == rest[k - 1]);
                    }
                }
            }
        }
    }
}

/// Whether a text holds no newline.
pub open spec fn is_one_line(s: Seq<u8>) -> bool {
    !s.contains(NEWLINE)
}

/// Texts without newlines, one after the other, hold none.
pub proof fn lemma_one_line_add(a: Seq<u8>, b: Seq<u8>)
    requires
        is_one_line(a),
        is_one_line(b),
    ensures
        is_one_line(a + b),
{
    let s = a + b;
    if s.contains(NEWLINE) {
        let k = choose|k: int| 0 <= k < s.len() && s[k] == NEWLINE;
        if k < a.len() {
            assert(a[k] == NEWLINE);
        } else {
            assert(b[k - a.len()] == NEWLINE);
        }
    }
}

/// What reading guarantees of a draft: its header, if it has one, names
/// neither nothing nor the root; owner and comments are there only if they
/// are read; each comment is tidy; no dependency names the todo itself; the
/// lines that follow are lines of no kind; and no part holds a newline.
pub open spec fn sound_draft(d: DraftView, how: Reading) -> bool {
    &&& headed(d)
    &&& is_one_line(d.owner)
    &&& how.hide_owner ==> d.owner.len() == 0
    &&& forall|i: int|
        0 <= i < d.comment.len() ==> is_tidy(#[trigger] d.comment[i]) && is_one_line(d.comment[i])
    &&& how.hide_comment ==> d.comment.len() == 0
    &&& forall|i: int|
        0 <= i < d.dependencies.len() ==> bare_name(#[trigger] d.dependencies[i])
            != bare_name(d.name) && is_one_line(d.dependencies[i])
    &&& forall|i: int|
        0 <= i < d.auxilaries.len() ==> is_plain_line(#[trigger] d.auxilaries[i]) && is_one_line(
            d.auxilaries[i],
        )
}

/// What reading guarantees of a todo that it files: the same as of a draft,
/// with a name that is fit for a defined todo and at least one line that
/// follows.
pub open spec fn sound_todo(t: TodoView, how: Reading) -> bool {
    &&& is_name(t.name)
    &&& is_one_line(t.owner)
    &&& how.hide_owner ==> t.owner.len() == 0
    &&& forall|i: int|
        0 <= i < t.comment.len() ==> is_tidy(#[trigger] t.comment[i]) && is_one_line(t.comment[i])
    &&& how.hide_comment ==> t.comment.len() == 0
    &&& forall|i: int|
        0 <= i < t.dependencies.len() ==> bare_name(#[trigger] t.dependencies[i]) != t.name
            && is_one_line(t.dependencies[i])
    &&& t.auxilaries.len() > 0
    &&& forall|i: int|
        0 <= i < t.auxilaries.len() ==> is_plain_line(#[trigger] t.auxilaries[i]) && is_one_line(
            t.auxilaries[i],
        )
}

/// Whether every todo satisfies what reading guarantees.
pub open spec fn sound_todos(dict: Seq<TodoView>, how: Reading) -> bool {
    forall|j: int| 0 <= j < dict.len() ==> sound_todo(#[trigger] dict[j], how)
}

/// What reading guarantees of its notes: of each todo, what it guarantees of
/// todos, and of the prelude, lines of no kind without newlines.
pub open spec fn sound_notes(notes: Notes, how: Reading) -> bool {
    &&& sound_todos(notes.dict, how)
    &&& forall|i: int|
        0 <= i < notes.prelude.len() ==> is_plain_line(#[trigger] notes.prelude[i])
            && is_one_line(notes.prelude[i])
}

/// Filing keeps the guarantees.
pub proof fn lemma_filed_sound(notes: Notes, draft: DraftView, how: Reading)
    requires
        how.separator == seq![NEWLINE],
        sound_notes(notes, how),
        sound_draft(draft, how),
    ensures
        match filed(notes, draft, how.separator) {
            Ok(after) => sound_notes(after, how),
            Err(_) => true,
        },
{
    match filed(notes, draft, how.separator) {
        Ok(after) => {
            if draft.name.len() > 0 {
                let t = after.dict.last();
                assert(after.dict == notes.dict.push(t));
                assert(name_fault(bare_name(draft.name)) is None);
                assert(sound_todo(t, how)) by {
                    if draft.auxilaries.len() == 0 {
                        assert(t.auxilaries[0] =~= Seq::<u8>::empty());
                        assert(is_plain_line(t.auxilaries[0]));
                    }
                }
                assert forall|j: int| 0 <= j < after.dict.len() implies sound_todo(
                    #[trigger] after.dict[j],
                    how,
                ) by {
                    if j < notes.dict.len() {
                        assert(after.dict[j] == notes.dict[j]);
                    }
                }
            }
        },
        Err(_) => {},
    }
}

/// Reading a line keeps the guarantees.
pub proof fn lemma_read_line_sound(notes: Notes, draft: DraftView, line: Seq<u8>, how: Reading)
    requires
        how.separator == seq![NEWLINE],
        sound_notes(notes, how),
        sound_draft(draft, how),
        is_one_line(line),
    ensures
        match read_line(notes, draft, line, how) {
            Ok((after, next)) => sound_notes(after, how) && sound_draft(next, how),
            Err(_) => true,
        },
{
    reveal(read_line);
    let ln = trimmed(line);
    lemma_trimmed_is_tidy(line);
    lemma_trimmed_newline_free(line);
    lemma_filed_sound(notes, draft, how);
    if header_mark().is_prefix_of(ln) {
    } else {
        if ln.len() >= 3 {
            lemma_stretch_newline_free(ln, 3, ln.len() as int);
            let part = trimmed(ln.skip(3));
            lemma_trimmed_is_tidy(ln.skip(3));
            lemma_trimmed_newline_free(ln.skip(3));
            if owner_mark().is_prefix_of(ln) {
                if !how.hide_owner {
                    if draft.owner.len() > 0 {
                        assert(is_one_line(seq![SPACE])) by {
                            if seq![SPACE].contains(NEWLINE) {
                                let k = choose|k: int| 0 <= k < 1 && seq![SPACE][k] == NEWLINE;
                            }
                        }
                        lemma_one_line_add(draft.owner, seq![SPACE]);
                        lemma_one_line_add(draft.owner + seq![SPACE], part);
                    }
                }
            } else if comment_mark().is_prefix_of(ln) {
            } else if dependency_mark().is_prefix_of(ln) {
                let more = words(ln.skip(3));
                let deps = draft.dependencies + more;
                lemma_words_are_words(ln.skip(3), 0);
                crate::assemble::lemma_first_naming(deps, bare_name(draft.name), 0);
                assert forall|i: int| 0 <= i < deps.len() implies is_one_line(
                    #[trigger] deps[i],
                ) by {
                    if i >= draft.dependencies.len() {
                        assert(deps[i] == more[i - draft.dependencies.len()]);
                        lemma_word_newline_free(more[i - draft.dependencies.len()]);
                    } else {
                        assert(deps[i] == draft.dependencies[i]);
                    }
                }
            }
        }
    }
}

/// Reading lines keeps the guarantees.
pub proof fn lemma_read_lines_sound(
    notes: Notes,
    draft: DraftView,
    text: Seq<Seq<u8>>,
    i: int,
    how: Reading,
)
    requires
        how.separator == seq![NEWLINE],
        sound_notes(notes, how),
        sound_draft(draft, how),
        forall|k: int| 0 <= k < text.len() ==> is_one_line(#[trigger] text[k]),
    ensures
        match read_lines(notes, draft, text, i, how) {
            Ok(after) => sound_notes(after, how),
            Err(_) => true,
        },
    decreases text.len() - i,
{
    if 0 <= i < text.len() {
        lemma_read_line_sound(notes, draft, text[i], how);
        match read_line(notes, draft, text[i], how) {
            Ok((after, next)) => {
                lemma_read_lines_sound(after, next, text, i + 1, how);
            },
            Err(_) => {},
        }
    } else {
        lemma_filed_sound(notes, draft, how);
    }
}

/// Reading files keeps the guarantees.
pub proof fn lemma_read_all_sound(notes: Notes, inputs: Seq<Seq<u8>>, k: int, how: Reading)
    requires
        how.separator == seq![NEWLINE],
        sound_notes(notes, how),
    ensures
        match read_all(notes, inputs, k, how) {
            Ok(after) => sound_notes(after, how),
            Err(_) => true,
        },
    decreases inputs.len() - k,
{
    if 0 <= k < inputs.len() {
        let text = lines(escaped(inputs[k]));
        lemma_lines_newline_free(escaped(inputs[k]), 0);
        let blank = blank_draft(Seq::empty());
        assert(is_one_line(blank.owner)) by {
            if blank.owner.contains(NEWLINE) {
                let x = choose|x: int| 0 <= x < blank.owner.len() && blank.owner[x] == NEWLINE;
            }
        }
        lemma_read_lines_sound(notes, blank, text, 0, how);
        match read(notes, inputs[k], how) {
            Ok(after) => {
                lemma_read_all_sound(after, inputs, k + 1, how);
            },
            Err(_) => {},
        }
    }
}

/// Whether a dependency names, markers aside, a todo of `full`.
pub open spec fn resolves(full: Seq<TodoView>, dep: Seq<u8>) -> bool {
    0 <= find(full, bare_name(dep)) < full.len()
}

/// A todo of a name is found where it stands or before.
pub proof fn lemma_found(store: Seq<TodoView>, name: Seq<u8>, k: int)
    requires
        0 <= k < store.len(),
        store[k].name == name,
    ensures
        0 <= find(store, name) <= k,
{
    lemma_find_from(store, name, 0);
}

/// What a dependency resolves to in some todos it resolves to when more
/// todos follow them.
pub proof fn lemma_resolves_on(a: Seq<TodoView>, b: Seq<TodoView>, dep: Seq<u8>)
    requires
        a.is_prefix_of(b),
        resolves(a, dep),
    ensures
        resolves(b, dep),
{
    let name = bare_name(dep);
    lemma_find_from(a, name, 0);
    let k = find(a, name);
    assert(b[k] == a[k]);
    lemma_found(b, name, k);
}

/// Looking at a dependency makes it resolve, and keeps the stubs and what
/// holds of them.
pub proof fn lemma_with_dependency_resolves(
    dict: Seq<TodoView>,
    stubs: Stubs,
    auto_add: bool,
    parent: Seq<u8>,
    dep: Seq<u8>,
    how: Reading,
)
    requires
        sound_todos(stubs.todos, how),
    ensures
        match with_dependency(dict, stubs, auto_add, parent, dep) {
            Ok(after) => {
                &&& stubs.todos.is_prefix_of(after.todos)
                &&& sound_todos(after.todos, how)
                &&& resolves(dict + after.todos, dep)
            },
            Err(_) => true,
        },
{
    let name = bare_name(dep);
    let all = dict + stubs.todos;
    lemma_find_from(dict, name, 0);
    lemma_find_from(stubs.todos, name, 0);
    match with_dependency(dict, stubs, auto_add, parent, dep) {
        Ok(after) => {
            if find(dict, name) < dict.len() {
                assert(all[find(dict, name)] == dict[find(dict, name)]);
                lemma_found(all, name, find(dict, name));
            } else if find(stubs.todos, name) < stubs.todos.len() {
                let k = find(stubs.todos, name);
                assert(all[dict.len() + k] == stubs.todos[k]);
                lemma_found(all, name, dict.len() + k);
            } else {
                let t = after.todos.last();
                assert(after.todos == stubs.todos.push(t));
                assert(name_fault(bare_name(dep)) is None);
                assert(t.name == name);
                assert(sound_todo(t, how)) by {
                    assert(t.auxilaries[0] =~= Seq::<u8>::empty());
                    assert(is_plain_line(t.auxilaries[0]));
                    assert(t.owner =~= Seq::<u8>::empty());
                }
                assert forall|j: int| 0 <= j < after.todos.len() implies sound_todo(
                    #[trigger] after.todos[j],
                    how,
                ) by {
                    if j < stubs.todos.len() {
                        assert(after.todos[j] == stubs.todos[j]);
                    }
                }
                let grown = dict + after.todos;
                let at = (dict.len() + stubs.todos.len()) as int;
                assert(grown[at] == t);
                lemma_found(grown, name, at);
            }
        },
        Err(_) => {},
    }
}

/// Looking at the dependencies makes them resolve, and keeps the stubs and
/// what holds of them.
pub proof fn lemma_with_dependencies_resolve(
    dict: Seq<TodoView>,
    stubs: Stubs,
    auto_add: bool,
    i: int,
    j: int,
    how: Reading,
)
    requires
        0 <= i,
        0 <= j,
        sound_todos(stubs.todos, how),
    ensures
        match with_dependencies(dict, stubs, auto_add, i, j) {
            Ok(after) => {
                &&& stubs.todos.is_prefix_of(after.todos)
                &&& sound_todos(after.todos, how)
                &&& forall|a: int, b: int|
                    i <= a < dict.len() && 0 <= b < dict[a].dependencies.len() && (a > i || b
                        >= j) ==> resolves(dict + after.todos, #[trigger] dict[a].dependencies[b])
            },
            Err(_) => true,
        },
    decreases dict.len() - i, dict[i].dependencies.len() - j,
{
    if i < dict.len() {
        if j < dict[i].dependencies.len() {
            let dep = dict[i].dependencies[j];
            lemma_with_dependency_resolves(dict, stubs, auto_add, dict[i].name, dep, how);
            match with_dependency(dict, stubs, auto_add, dict[i].name, dep) {
                Ok(mid) => {
                    lemma_with_dependencies_resolve(dict, mid, auto_add, i, j + 1, how);
                    match with_dependencies(dict, mid, auto_add, i, j + 1) {
                        Ok(after) => {
                            assert((dict + mid.todos).is_prefix_of(dict + after.todos)) by {
                                assert forall|k: int| 0 <= k < (dict + mid.todos).len() implies (
                                dict + mid.todos)[k] == (dict + after.todos)[k] by {
                                    if k >= dict.len() {
                                        assert(mid.todos[k - dict.len()] == after.todos[k
                                            - dict.len()]);
                                    }
                                }
                            }
                            lemma_resolves_on(dict + mid.todos, dict + after.todos, dep);
                        },
                        Err(_) => {},
                    }
                },
                Err(_) => {},
            }
        } else {
            lemma_with_dependencies_resolve(dict, stubs, auto_add, i + 1, 0, how);
        }
    }
}

/// Whether every dependency of every todo names, markers aside, one of the
/// todos.
pub open spec fn all_resolve(full: Seq<TodoView>) -> bool {
    forall|a: int, b: int|
        0 <= a < full.len() && 0 <= b < full[a].dependencies.len() ==> resolves(
            full,
            #[trigger] full[a].dependencies[b],
        )
}

/// Adding the stubs keeps what reading guarantees, and makes every
/// dependency resolve.
pub proof fn lemma_with_stubs_sound(dict: Seq<TodoView>, auto_add: bool, how: Reading)
    requires
        sound_todos(dict, how),
    ensures
        match with_stubs(dict, auto_add) {
            Ok(full) => sound_todos(full, how) && all_resolve(full),
            Err(_) => true,
        },
{
    let none = Stubs { todos: Seq::empty(), parents: Seq::empty() };
    lemma_with_dependencies_resolve(dict, none, auto_add, 0, 0, how);
    match with_dependencies(dict, none, auto_add, 0, 0) {
        Ok(after) => {
            let full = dict + after.todos;
            assert forall|j: int| 0 <= j < full.len() implies sound_todo(
                #[trigger] full[j],
                how,
            ) by {
                if j < dict.len() {
                    assert(full[j] == dict[j]);
                } else {
                    assert(full[j] == after.todos[j - dict.len()]);
                }
            }
            assert forall|a: int, b: int|
                0 <= a < full.len() && 0 <= b < full[a].dependencies.len() implies resolves(
                full,
                #[trigger] full[a].dependencies[b],
            ) by {
                if a < dict.len() {
                    assert(full[a] == dict[a]);
                } else {
                    assert(full[a] == after.todos[a - dict.len()]);
                    lemma_stub_needs_nothing(dict, none, auto_add, 0, 0, a - dict.len());
                }
            }
        },
        Err(_) => {},
    }
}

/// Whether the stubs depend on nothing.
pub open spec fn stubs_need_nothing(stubs: Stubs) -> bool {
    forall|k: int| 0 <= k < stubs.todos.len() ==> (#[trigger] stubs.todos[k]).dependencies.len() == 0
}

/// A stub depends on nothing.
pub proof fn lemma_stub_needs_nothing(
    dict: Seq<TodoView>,
    stubs: Stubs,
    auto_add: bool,
    i: int,
    j: int,
    k: int,
)
    requires
        stubs_need_nothing(stubs),
    ensures
        match with_dependencies(dict, stubs, auto_add, i, j) {
            Ok(after) => 0 <= k < after.todos.len() ==> after.todos[k].dependencies.len() == 0,
            Err(_) => true,
        },
    decreases dict.len() - i, dict[i].dependencies.len() - j,
{
    if 0 <= i < dict.len() {
        if 0 <= j < dict[i].dependencies.len() {
            match with_dependency(dict, stubs, auto_add, dict[i].name, dict[i].dependencies[j]) {
                Ok(mid) => {
                    assert(stubs_need_nothing(mid)) by {
                        assert forall|x: int| 0 <= x < mid.todos.len() implies (
                        #[trigger] mid.todos[x]).dependencies.len() == 0 by {
                            if x < stubs.todos.len() {
                                assert(mid.todos[x] == stubs.todos[x]);
                            }
                        }
                    }
                    lemma_stub_needs_nothing(dict, mid, auto_add, i, j + 1, k);
                },
                Err(_) => {},
            }
        } else {
            lemma_stub_needs_nothing(dict, stubs, auto_add, i + 1, 0, k);
        }
    } else {
        if 0 <= k < stubs.todos.len() {
            assert(stubs.todos[k].dependencies.len() == 0);
        }
    }
}

/// Whether two todos have the same name, owner, comment, dependencies and
/// following lines.
pub open spec fn same_parts(a: TodoView, b: TodoView) -> bool {
    &&& a.name == b.name
    &&& a.owner == b.owner
    &&& a.comment == b.comment
    &&& a.dependencies == b.dependencies
    &&& a.auxilaries == b.auxilaries
}

/// Whether `n` has the parts of a todo of the store.
pub open spec fn is_copy(store: Seq<TodoView>, n: TodoView) -> bool {
    exists|j: int| 0 <= j < store.len() && same_parts(n, #[trigger] store[j])
}

/// Whether every todo below `t` has the parts of a todo of the store.
pub open spec fn copies_below(store: Seq<TodoView>, t: TodoView) -> bool {
    forall|k: int| 0 <= k < below(t).len() ==> is_copy(store, #[trigger] below(t)[k])
}

/// While a walk without depth limit goes through the dependencies of a
/// todo, the todos below it have the parts of todos of the store.
pub proof fn lemma_walk_copies(
    store: Seq<TodoView>,
    opts: Options,
    v: Visit,
    i: int,
    st: Walk,
    depth: nat,
)
    requires
        opts.limit == 0,
        st.visited.len() == store.len(),
        st.path.len() == store.len(),
        copies_below(store, v.node),
    ensures
        match walk(store, opts, v, i, st, depth) {
            Ok((w, _)) => copies_below(store, w.node),
            Err(_) => true,
        },
    decreases unvisited(st.visited), v.node.dependencies.len() - i,
{
    if 0 <= i < v.node.dependencies.len() {
        let name = bare_name(v.node.dependencies[i]);
        let d = find(store, name);
        lemma_find_from(store, name, 0);
        if d < store.len() && !st.path[d] {
            let pending = store[d].status != Status::Completed;
            let seen = Visit {
                pending: if pending {
                    v.pending.push(name)
                } else {
                    v.pending
                },
                ..v
            };
            if in_scope(opts.limit, depth) && !st.visited[d] {
                let inside = Walk {
                    visited: st.visited.update(d, true),
                    path: st.path.update(d, true),
                    ..st
                };
                let (c, entered) = enter(fresh(store[d]), opts, inside);
                crate::resolve::lemma_unvisited_update(st.visited, d);
                lemma_walk_visits(store, opts, c, 0, entered, depth + 1);
                assert(below(c.node) =~= Seq::<TodoView>::empty());
                lemma_walk_copies(store, opts, c, 0, entered, depth + 1);
                match walk(store, opts, c, 0, entered, depth + 1) {
                    Ok((c2, after)) => {
                        match leave(opts, c2, depth + 1) {
                            Ok(child) => {
                                let next = Walk { path: after.path.update(d, false), ..after };
                                let grown = adopt(opts, seen, child, c2.owned, pending);
                                lemma_below_same(child, c2.node, 0);
                                assert(below(child) == below(c2.node));
                                assert(copies_below(store, child));
                                assert(same_parts(child, store[d]));
                                if grown.node.children.len() > v.node.children.len() {
                                    lemma_below_push(v.node, child, 0);
                                    lemma_below_same(
                                        grown.node,
                                        TodoView {
                                            children: v.node.children.push(child),
                                            ..v.node
                                        },
                                        0,
                                    );
                                    let old = below(v.node);
                                    let sub = below(child);
                                    let all = below(grown.node);
                                    assert(all == old + seq![child] + sub);
                                    assert forall|k: int| 0 <= k < all.len() implies is_copy(
                                        store,
                                        #[trigger] all[k],
                                    ) by {
                                        if k < old.len() {
                                            assert(all[k] == old[k]);
                                            assert(is_copy(store, old[k]));
                                        } else if k == old.len() {
                                            assert(same_parts(all[k], store[d]));
                                        } else {
                                            assert(all[k] == sub[k - old.len() - 1]);
                                            assert(is_copy(store, sub[k - old.len() - 1]));
                                        }
                                    }
                                } else {
                                    lemma_below_same(grown.node, v.node, 0);
                                    assert(below(grown.node) == below(v.node));
                                }
                                lemma_walk_copies(store, opts, grown, i + 1, next, depth);
                            },
                            Err(_) => {},
                        }
                    },
                    Err(_) => {},
                }
            } else {
                lemma_below_same(seen.node, v.node, 0);
                assert(below(seen.node) == below(v.node));
                lemma_walk_copies(store, opts, seen, i + 1, st, depth);
            }
        }
    }
}

/// A name that is fit for a defined todo is a word of one line.
pub proof fn lemma_name_is_word(name: Seq<u8>)
    requires
        is_name(name),
    ensures
        is_word(name),
        is_one_line(name),
        !crate::todo::is_marked(name),
{
    let t = TodoView {
        name,
        owner: Seq::empty(),
        comment: Seq::empty(),
        dependencies: Seq::empty(),
        auxilaries: Seq::empty(),
        children: Seq::empty(),
        height: 0,
        status: Status::Pending,
    };
    lemma_written_name(t);
    assert(crate::roundtrip::written_name(t) =~= name);
    lemma_word_newline_free(name);
}

/// A todo of which reading guarantees its share is legible if its owner is
/// tidy and its dependencies resolve.
pub proof fn lemma_sound_is_legible(full: Seq<TodoView>, t: TodoView, how: Reading)
    requires
        how.separator == seq![NEWLINE],
        sound_todos(full, how),
        sound_todo(t, how),
        is_tidy(t.owner),
        forall|b: int|
            0 <= b < t.dependencies.len() ==> resolves(full, #[trigger] t.dependencies[b]),
    ensures
        legible(t, how),
        newline_free(md_lines(t)),
{
    let deps = unmarked(t.dependencies);
    assert forall|i: int| 0 <= i < t.dependencies.len() implies is_word(#[trigger] deps[i])
        && !crate::todo::is_marked(deps[i]) && deps[i] != t.name && is_one_line(deps[i]) by {
        let dep = t.dependencies[i];
        assert(resolves(full, dep));
        let k = find(full, bare_name(dep));
        lemma_find_from(full, bare_name(dep), 0);
        assert(sound_todo(full[k], how));
        lemma_name_is_word(full[k].name);
    }
    assert(legible(t, how)) by {
        if how.hide_comment {
            assert(t.comment =~= Seq::<Seq<u8>>::empty());
        }
    }
    lemma_md_lines_newline_free(t, how);
}

/// The lines of the definition of a legible todo whose parts hold no
/// newline hold none.
pub proof fn lemma_md_lines_newline_free(t: TodoView, how: Reading)
    requires
        legible(t, how),
        is_one_line(t.owner),
        forall|i: int| 0 <= i < t.comment.len() ==> is_one_line(#[trigger] t.comment[i]),
        forall|i: int| 0 <= i < t.auxilaries.len() ==> is_one_line(#[trigger] t.auxilaries[i]),
    ensures
        newline_free(md_lines(t)),
{
    let ls = md_lines(t);
    let head = seq![crate::render::md_header(t)];
    let own = crate::render::md_owner(t);
    let dep = crate::render::md_dependencies(t);
    let com = crate::render::md_comments(t.comment);
    let aux = t.auxilaries;
    assert(ls == head + own + dep + com + aux);
    lemma_written_name(t);
    let sp = seq![SPACE];
    assert(is_one_line(sp)) by {
        if sp.contains(NEWLINE) {
            let k = choose|k: int| 0 <= k < sp.len() && sp[k] == NEWLINE;
        }
    }
    lemma_marks_one_line();
    assert(is_one_line(head[0])) by {
        lemma_word_newline_free(crate::roundtrip::written_name(t));
        assert(head[0] =~= header_mark() + crate::roundtrip::written_name(t));
        lemma_one_line_add(header_mark(), crate::roundtrip::written_name(t));
    }
    if t.owner.len() > 0 {
        lemma_one_line_add(owner_mark(), sp);
        lemma_one_line_add(owner_mark() + sp, t.owner);
    }
    if t.dependencies.len() > 0 {
        let list = crate::text::joined(unmarked(t.dependencies), sp);
        lemma_words_joined(unmarked(t.dependencies));
        lemma_joined_one_line(unmarked(t.dependencies), 0);
        assert(is_one_line(list)) by {
            let whole = crate::text::join_rest(unmarked(t.dependencies), sp, 0);
            assert(list =~= whole.skip(1));
            lemma_stretch_newline_free(whole, 1, whole.len() as int);
        }
        lemma_one_line_add(dependency_mark(), sp);
        lemma_one_line_add(dependency_mark() + sp, list);
    }
    assert forall|i: int| 0 <= i < com.len() implies is_one_line(#[trigger] com[i]) by {
        lemma_one_line_add(comment_mark(), sp);
        lemma_one_line_add(comment_mark() + sp, t.comment[i]);
    }
    assert forall|k: int| 0 <= k < ls.len() implies !(#[trigger] ls[k]).contains(NEWLINE) by {
        let a = 1 + own.len() as int;
        let b = a + dep.len() as int;
        let c = b + com.len() as int;
        if k == 0 {
            assert(ls[k] == head[0]);
        } else if k < a {
            assert(ls[k] == own[k - 1]);
        } else if k < b {
            assert(ls[k] == dep[k - a]);
        } else if k < c {
            assert(ls[k] == com[k - b]);
        } else {
            assert(ls[k] == aux[k - c]);
        }
    }
}

/// The four marks hold no newline.
pub proof fn lemma_marks_one_line()
    ensures
        is_one_line(header_mark()),
        is_one_line(owner_mark()),
        is_one_line(comment_mark()),
        is_one_line(dependency_mark()),
{
    assert forall|m: Seq<u8>|
        (m == header_mark() || m == owner_mark() || m == comment_mark() || m
            == dependency_mark()) implies !m.contains(NEWLINE) by {
        if m.contains(NEWLINE) {
            let k = choose|k: int| 0 <= k < m.len() && m[k] == NEWLINE;
        }
    }
}

/// Words with a blank in front of each hold no newline.
pub proof fn lemma_joined_one_line(ws: Seq<Seq<u8>>, k: int)
    requires
        0 <= k,
        forall|i: int| 0 <= i < ws.len() ==> is_word(#[trigger] ws[i]),
    ensures
        is_one_line(crate::text::join_rest(ws, seq![SPACE], k)),
    decreases ws.len() - k,
{
    let sp = seq![SPACE];
    let whole = crate::text::join_rest(ws, sp, k);
    if k < ws.len() {
        lemma_joined_one_line(ws, k + 1);
        assert(is_one_line(sp)) by {
            if sp.contains(NEWLINE) {
                let x = choose|x: int| 0 <= x < sp.len() && sp[x] == NEWLINE;
            }
        }
        lemma_word_newline_free(ws[k]);
        lemma_one_line_add(sp, ws[k]);
        lemma_one_line_add(sp + ws[k], crate::text::join_rest(ws, sp, k + 1));
    } else {
        if whole.contains(NEWLINE) {
            let x = choose|x: int| 0 <= x < whole.len() && whole[x] == NEWLINE;
        }
    }
}

/// The lines of definitions without newlines hold none.
pub proof fn lemma_all_lines_newline_free(nodes: Seq<TodoView>)
    requires
        forall|k: int| 0 <= k < nodes.len() ==> newline_free(md_lines(#[trigger] nodes[k])),
    ensures
        newline_free(all_lines(nodes)),
    decreases nodes.len(),
{
    if nodes.len() > 0 {
        let rest = nodes.drop_first();
        assert forall|k: int| 0 <= k < rest.len() implies newline_free(
            md_lines(#[trigger] rest[k]),
        ) by {
            assert(rest[k] == nodes[k + 1]);
        }
        lemma_all_lines_newline_free(rest);
        let head = md_lines(nodes[0]);
        let all = all_lines(nodes);
        assert(all == head + all_lines(rest));
        assert(newline_free(head));
        assert forall|k: int| 0 <= k < all.len() implies !(#[trigger] all[k]).contains(
            NEWLINE,
        ) by {
            if k < head.len() {
                assert(all[k] == head[k]);
            } else {
                assert(all[k] == all_lines(rest)[k - head.len()]);
            }
        }
    }
}

/// Markdown round trip of a tree made from files.
///
/// Let [`crate::tree::Tree::new`] make a tree in the markdown format from
/// files, without depth limit and with the newline for a separator, and let
/// the owner of every todo be tidy. If rendering the tree gives a text in
/// which resolving escapes changes nothing, then reading that text, with
/// owners and comments hidden or not as they were, gives the prelude back,
/// and the todos of the tree in the order in which they are drawn: each with
/// its name, owner, comment and following lines, with its dependencies
/// without markers, and completed if it was completed.
pub proof fn law_files_round_trip(req: Request)
    requires
        planted(req) is Ok,
        planted(req)->Ok_0.format == Format::Md,
        req.dpth_limit == 0,
        req.separator == seq![NEWLINE],
        forall|j: int|
            0 <= j < planted(req)->Ok_0.dict.len() ==> is_tidy(
                (#[trigger] planted(req)->Ok_0.dict[j]).owner,
            ),
        escaped(planted(req)->Ok_0.rendered()) == planted(req)->Ok_0.rendered(),
    ensures
        read(
            Notes { dict: Seq::empty(), prelude: Seq::empty() },
            planted(req)->Ok_0.rendered(),
            Reading {
                separator: req.separator,
                hide_comment: req.hide_comment,
                hide_owner: req.hide_owner,
            },
        ) == Ok::<Notes, TodoErrorView>(
            Notes {
                dict: rereads(below(planted(req)->Ok_0.root)),
                prelude: planted(req)->Ok_0.prelude,
            },
        ),
{
    let how = Reading {
        separator: req.separator,
        hide_comment: req.hide_comment,
        hide_owner: req.hide_owner,
    };
    let tree = planted(req)->Ok_0;
    let start = Notes { dict: Seq::<TodoView>::empty(), prelude: Seq::<Seq<u8>>::empty() };
    lemma_read_all_sound(start, req.inputs, 0, how);
    let notes = read_all(start, req.inputs, 0, how)->Ok_0;
    lemma_with_stubs_sound(notes.dict, req.auto_add, how);
    let (full, seed, prelude) = gathered(req)->Ok_0;
    assert(tree.dict == full);
    assert(tree.prelude == prelude);
    let opts = Options { hide: req.hide_done, limit: req.dpth_limit, owners: req.owners };
    let st = Walk {
        visited: no_flags(full.len()),
        path: no_flags(full.len()),
        used: no_flags(req.owners.len()),
    };
    let (v, entered) = enter(seed, opts, st);
    assert(below(v.node) =~= Seq::<TodoView>::empty());
    lemma_walk_copies(full, opts, v, 0, entered, 0);
    let (w, _) = walk(full, opts, v, 0, entered, 0)->Ok_0;
    lemma_below_same(tree.root, w.node, 0);
    assert(below(tree.root) == below(w.node));
    let nodes = below(tree.root);
    assert forall|k: int| 0 <= k < nodes.len() implies legible(#[trigger] nodes[k], how)
        && newline_free(md_lines(nodes[k])) by {
        let n = nodes[k];
        assert(is_copy(full, n));
        let j = choose|j: int| 0 <= j < full.len() && same_parts(n, #[trigger] full[j]);
        assert(sound_todo(full[j], how));
        assert(sound_todo(n, how));
        assert(is_tidy(tree.dict[j].owner));
        assert forall|b: int| 0 <= b < n.dependencies.len() implies resolves(
            full,
            #[trigger] n.dependencies[b],
        ) by {
            assert(n.dependencies[b] == full[j].dependencies[b]);
        }
        lemma_sound_is_legible(full, n, how);
    }
    lemma_all_lines_newline_free(nodes);
    assert(newline_free(tree.prelude + all_lines(nodes))) by {
        let all = tree.prelude + all_lines(nodes);
        assert forall|k: int| 0 <= k < all.len() implies !(#[trigger] all[k]).contains(
            NEWLINE,
        ) by {
            if k < tree.prelude.len() {
                assert(all[k] == tree.prelude[k]);
            } else {
                assert(all[k] == all_lines(nodes)[k - tree.prelude.len()]);
            }
        }
    }
    law_tree_round_trip(req, how);
}

} // verus!
