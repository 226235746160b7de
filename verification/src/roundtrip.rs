//! Writing a tree as markdown and reading it back gives the todos of the
//! tree: the law, and the facts about text that it rests on.
use crate::{Format, Status, TodoErrorView};
use crate::grammar::{
    blank_draft, comment_mark, dependency_mark, escaped, escaped_from, filed, header_mark,
    kept_comment, owner_mark, read, read_line, read_lines, DraftView, Notes, Reading,
};
use crate::laws::{
    law_tree_shows_once, lemma_find_from, lemma_planted_root, shown, shown_from, uncut,
};
use crate::render::{
    frame_of, lemma_rendered, lemma_rendered_children, lemma_unlines_add, md_comments,
    md_dependencies, md_header, md_lines, md_owner, rendered, rendered_children, unlines, unmarked,
    Frame,
};
use crate::resolve::find;
use crate::text::{
    join_rest, joined, line_end, lines, lines_from, skip_space, skip_space_back, space_width,
    space_width_back, trimmed, word_end, words, words_from, BACKSLASH, NEWLINE, SPACE, TAB, TILDE,
};
use crate::todo::{
    bare_name, below, below_from, first_bad_byte, is_marked, is_name_byte, kept_auxilaries,
    name_fault, new_todo, root_name, TodoView,
};
use crate::tree::{planted, Request, TreeView};
use vstd::prelude::*;

verus! {

/// Whether `s` neither begins nor ends with white space.
pub open spec fn is_tidy(s: Seq<u8>) -> bool {
    space_width(s, 0) == 0 && space_width_back(s, 0, s.len() as int) == 0
}

/// Whether `s` is a word: not empty, and free of white space.
pub open spec fn is_word(s: Seq<u8>) -> bool {
    s.len() > 0 && forall|i: int| 0 <= i < s.len() ==> space_width(s, i) == 0
}

/// Whether every byte of `s` is an ASCII character that is no white space.
pub open spec fn is_mark(s: Seq<u8>) -> bool {
    forall|i: int| 0 <= i < s.len() ==> 32 < #[trigger] s[i] < 128
}

/// Trimming leaves a tidy text as it is.
pub proof fn lemma_trimmed_tidy(s: Seq<u8>)
    requires
        is_tidy(s),
    ensures
        trimmed(s) == s,
{
    assert(skip_space(s, 0) == 0);
    assert(skip_space_back(s, 0, s.len() as int) == s.len());
    assert(s.subrange(0, s.len() as int) =~= s);
}

/// A word is tidy.
pub proof fn lemma_word_tidy(s: Seq<u8>)
    requires
        is_word(s),
    ensures
        is_tidy(s),
{
}

/// White space in a text behind another text is white space of the text
/// itself or reaches over its end.
pub proof fn lemma_space_width_shift(a: Seq<u8>, x: Seq<u8>, i: int)
    requires
        0 <= i,
    ensures
        space_width(a + x, a.len() + i) == space_width(x, i),
{
    let s = a + x;
    if i < x.len() {
        assert(s[a.len() + i] == x[i]);
        if i + 1 < x.len() {
            assert(s[a.len() + i + 1] == x[i + 1]);
        }
        if i + 2 < x.len() {
            assert(s[a.len() + i + 2] == x[i + 2]);
        }
    }
}

/// A tidy text that is not empty stays tidy behind a mark and a blank.
pub proof fn lemma_tidy_behind(a: Seq<u8>, x: Seq<u8>)
    requires
        a.len() >= 1,
        forall|i: int| 0 <= i < a.len() ==> #[trigger] a[i] < 128,
        a[0] > 32,
        is_tidy(x),
        x.len() > 0,
    ensures
        is_tidy(a + x),
{
    let s = a + x;
    let n = s.len() as int;
    assert(s[0] == a[0]);
    assert(space_width(s, 0) == 0);
    lemma_space_width_shift(a, x, x.len() - 1);
    assert(space_width(s, n - 1) != 1) by {
        assert(s[n - 1] == x[x.len() - 1]);
    }
    if n >= 2 {
        assert(s[n - 1] == x[x.len() - 1]);
        if x.len() >= 2 {
            lemma_space_width_shift(a, x, x.len() - 2);
            assert(s[n - 2] == x[x.len() - 2]);
        } else {
            assert(s[n - 2] == a[a.len() - 1]);
        }
        assert(space_width(s, n - 2) != 2);
    }
    if n >= 3 {
        if x.len() >= 3 {
            lemma_space_width_shift(a, x, x.len() - 3);
            assert(s[n - 3] == x[x.len() - 3]);
            assert(s[n - 2] == x[x.len() - 2]);
        } else if x.len() == 2 {
            assert(s[n - 3] == a[a.len() - 1]);
        } else {
            assert(s[n - 3] == a[a.len() - 2]);
        }
        assert(space_width(s, n - 3) != 3);
    }
}

/// Trimming takes the blank in front of a tidy text away.
pub proof fn lemma_trimmed_behind_blank(x: Seq<u8>)
    requires
        is_tidy(x),
    ensures
        trimmed(seq![SPACE] + x) == x,
{
    let a = seq![SPACE];
    let s = a + x;
    lemma_space_width_shift(a, x, 0);
    assert(space_width(s, 0) == 1);
    assert(skip_space(s, 1) == 1);
    assert(skip_space(s, 0) == 1);
    let n = s.len() as int;
    if x.len() >= 1 {
        lemma_space_width_shift(a, x, x.len() - 1);
    }
    if x.len() >= 2 {
        lemma_space_width_shift(a, x, x.len() - 2);
    }
    if x.len() >= 3 {
        lemma_space_width_shift(a, x, x.len() - 3);
    }
    assert(space_width_back(s, 1, n) == 0);
    assert(skip_space_back(s, 1, n) == n);
    assert(s.subrange(1, n) =~= x);
}

/// No white space starts within a word, whatever follows the word after a
/// blank.
pub proof fn lemma_word_in_front(w: Seq<u8>, rest: Seq<u8>, j: int)
    requires
        is_word(w),
        0 <= j < w.len(),
        rest.len() == 0 || rest[0] == SPACE,
    ensures
        space_width(w + rest, j) == 0,
{
    let s = w + rest;
    assert(space_width(w, j) == 0);
    assert(s[j] == w[j]);
    if j + 1 < s.len() {
        if j + 1 < w.len() {
            assert(s[j + 1] == w[j + 1]);
        } else {
            assert(s[j + 1] == rest[0]);
        }
    }
    if j + 2 < s.len() {
        if j + 2 < w.len() {
            assert(s[j + 2] == w[j + 2]);
        } else if j + 1 < w.len() {
            assert(s[j + 2] == rest[0]);
        }
    }
}

/// A stretch free of white space that ends at white space or at the end of
/// the text is where a word ends.
pub proof fn lemma_word_end_run(s: Seq<u8>, a: int, e: int)
    requires
        0 <= a <= e <= s.len(),
        forall|j: int| a <= j < e ==> space_width(s, j) == 0,
        e == s.len() || space_width(s, e) > 0,
    ensures
        word_end(s, a) == e,
    decreases e - a,
{
    if a < e {
        lemma_word_end_run(s, a + 1, e);
    }
}

/// Words with a blank in front of each read back as the words.
#[verifier::rlimit(30)]
pub proof fn lemma_words_spaced(pre: Seq<u8>, ws: Seq<Seq<u8>>, k: int)
    requires
        0 <= k <= ws.len(),
        forall|i: int| k <= i < ws.len() ==> is_word(#[trigger] ws[i]),
    ensures
        words_from(pre + join_rest(ws, seq![SPACE], k), pre.len() as int) == ws.skip(k),
    decreases ws.len() - k,
{
    let sp = seq![SPACE];
    let s = pre + join_rest(ws, sp, k);
    let i = pre.len() as int;
    if k == ws.len() {
        assert(s =~= pre);
        assert(skip_space(s, i) == i);
        assert(ws.skip(k) =~= Seq::<Seq<u8>>::empty());
    } else {
        let w = ws[k];
        assert(is_word(w));
        let rest = join_rest(ws, sp, k + 1);
        let head = pre + sp;
        assert(s =~= head + (w + rest));
        assert(rest.len() == 0 || rest[0] == SPACE) by {
            if k + 1 < ws.len() {
                assert(rest == sp + ws[k + 1] + join_rest(ws, sp, k + 2));
                assert(rest[0] == sp[0]);
            }
        }
        let a = i + 1;
        let e = a + w.len();
        assert(s[i] == SPACE);
        assert(space_width(s, i) == 1);
        assert forall|j: int| a <= j < e implies space_width(s, j) == 0 by {
            lemma_space_width_shift(head, w + rest, j - a);
            lemma_word_in_front(w, rest, j - a);
        }
        assert(skip_space(s, a) == a);
        assert(skip_space(s, i) == a);
        assert(e == s.len() || space_width(s, e) > 0) by {
            if e < s.len() {
                assert(s[e] == rest[0]);
            }
        }
        lemma_word_end_run(s, a + 1, e);
        assert(s.subrange(a, e) =~= w);
        let next = pre + sp + w;
        assert(next + rest =~= s);
        lemma_words_spaced(next, ws, k + 1);
        assert(next.len() == e);
        if e >= s.len() {
            assert(rest.len() == 0);
            assert(k + 1 == ws.len()) by {
                if k + 1 < ws.len() {
                    assert(rest == sp + ws[k + 1] + join_rest(ws, sp, k + 2));
                }
            }
            assert(ws.skip(k) =~= seq![w]);
            assert(s.subrange(a, s.len() as int) =~= w);
        } else {
            assert(ws.skip(k) =~= seq![w] + ws.skip(k + 1));
        }
    }
}

/// The words of a blank and of words joined by blanks are those words.
pub proof fn lemma_words_joined(ws: Seq<Seq<u8>>)
    requires
        ws.len() > 0,
        forall|i: int| 0 <= i < ws.len() ==> is_word(#[trigger] ws[i]),
    ensures
        words(seq![SPACE] + joined(ws, seq![SPACE])) == ws,
        is_tidy(joined(ws, seq![SPACE])),
        joined(ws, seq![SPACE]).len() > 0,
{
    let sp = seq![SPACE];
    lemma_words_spaced(Seq::<u8>::empty(), ws, 0);
    assert(join_rest(ws, sp, 0) == sp + ws[0] + join_rest(ws, sp, 1));
    assert(Seq::<u8>::empty() + join_rest(ws, sp, 0) =~= sp + joined(ws, sp));
    assert(ws.skip(0) =~= ws);
    lemma_joined_tidy(ws, 0);
    assert(joined(ws, sp) =~= join_rest(ws, sp, 0).skip(1));
}

/// A tidy text that is not empty ends as it ends behind a text that ends
/// with an ASCII character: with no white space.
pub proof fn lemma_tidy_end(a: Seq<u8>, x: Seq<u8>)
    requires
        a.len() >= 1,
        a.last() < 128,
        is_tidy(x),
        x.len() > 0,
    ensures
        space_width_back(a + x, 0, (a + x).len() as int) == 0,
{
    let s = a + x;
    let n = s.len() as int;
    lemma_space_width_shift(a, x, x.len() - 1);
    assert(s[n - 1] == x[x.len() - 1]);
    assert(space_width(s, n - 1) != 1);
    if x.len() >= 2 {
        lemma_space_width_shift(a, x, x.len() - 2);
    } else {
        assert(s[n - 2] == a[a.len() - 1]);
    }
    assert(space_width(s, n - 2) != 2);
    if n >= 3 {
        if x.len() >= 3 {
            lemma_space_width_shift(a, x, x.len() - 3);
        } else if x.len() == 2 {
            assert(s[n - 3] == a[a.len() - 1]);
        } else {
            assert(s[n - 2] == a[a.len() - 1]);
        }
        assert(space_width(s, n - 3) != 3);
    }
}

/// Words with a blank in front of each, the first blank aside, make a tidy
/// text.
pub proof fn lemma_joined_tidy(ws: Seq<Seq<u8>>, k: int)
    requires
        0 <= k < ws.len(),
        forall|i: int| k <= i < ws.len() ==> is_word(#[trigger] ws[i]),
    ensures
        is_tidy(join_rest(ws, seq![SPACE], k).skip(1)),
        join_rest(ws, seq![SPACE], k).len() > 1,
    decreases ws.len() - k,
{
    let sp = seq![SPACE];
    let w = ws[k];
    assert(is_word(w));
    let rest = join_rest(ws, sp, k + 1);
    let t = join_rest(ws, sp, k).skip(1);
    assert(t =~= w + rest);
    if k + 1 < ws.len() {
        assert(rest == sp + ws[k + 1] + join_rest(ws, sp, k + 2));
        assert(rest[0] == sp[0]);
        lemma_word_in_front(w, rest, 0);
        lemma_joined_tidy(ws, k + 1);
        let x = rest.skip(1);
        let a = w + sp;
        assert(t =~= a + x);
        assert(a.last() == SPACE);
        lemma_tidy_end(a, x);
    } else {
        assert(rest =~= Seq::<u8>::empty());
        assert(t =~= w);
    }
}

/// Whether a line is read as a line of no kind: it is tidy and begins with
/// none of the four marks.
pub open spec fn is_plain_line(a: Seq<u8>) -> bool {
    &&& is_tidy(a)
    &&& !header_mark().is_prefix_of(a)
    &&& !owner_mark().is_prefix_of(a)
    &&& !comment_mark().is_prefix_of(a)
    &&& !dependency_mark().is_prefix_of(a)
}

/// Whether `name` can be the name of a todo that is defined: it is not
/// empty, not the name of the root, and fit for a todo.
pub open spec fn is_name(name: Seq<u8>) -> bool {
    name.len() > 0 && name != root_name() && name_fault(name) is None
}

/// The name of a todo as its header gives it: with a completion marker in
/// front if the todo is completed.
pub open spec fn written_name(t: TodoView) -> Seq<u8> {
    (if t.status == Status::Completed {
        seq![TILDE]
    } else {
        Seq::empty()
    }) + t.name
}

/// A name byte is an ASCII character that is no white space and no
/// completion marker.
pub proof fn lemma_name_byte(b: u8)
    requires
        is_name_byte(b),
    ensures
        32 < b < 126,
{
}

/// A name that is fit for a todo is made of name bytes.
pub proof fn lemma_name_bytes(name: Seq<u8>, i: int)
    requires
        0 <= i <= name.len(),
        first_bad_byte(name, i) >= name.len(),
    ensures
        forall|k: int| i <= k < name.len() ==> is_name_byte(#[trigger] name[k]),
    decreases name.len() - i,
{
    if i < name.len() {
        lemma_name_bytes(name, i + 1);
    }
}

/// A text of ASCII characters that are no white space is a word if it is not
/// empty.
pub proof fn lemma_mark_is_word(s: Seq<u8>)
    requires
        is_mark(s),
        s.len() > 0,
    ensures
        is_word(s),
{
    assert forall|i: int| 0 <= i < s.len() implies space_width(s, i) == 0 by {
        assert(32 < s[i] < 128);
    }
}

/// The name of a defined todo as its header gives it is a word that stands
/// for the name, and is marked if the todo is completed.
pub proof fn lemma_written_name(t: TodoView)
    requires
        is_name(t.name),
    ensures
        is_word(written_name(t)),
        is_mark(written_name(t)),
        bare_name(written_name(t)) == t.name,
        is_marked(written_name(t)) == (t.status == Status::Completed),
        !t.name.contains(TILDE),
        !is_marked(t.name),
{
    let name = t.name;
    let wn = written_name(t);
    lemma_name_bytes(name, 0);
    assert forall|k: int| 0 <= k < name.len() implies 32 < #[trigger] name[k] < 126 by {
        lemma_name_byte(name[k]);
    }
    assert(!name.contains(TILDE));
    assert(!is_marked(name));
    if t.status == Status::Completed {
        assert(wn =~= seq![TILDE] + name);
        assert(wn.skip(1) =~= name);
        assert(wn[0] == TILDE);
        assert(is_mark(wn)) by {
            assert forall|i: int| 0 <= i < wn.len() implies 32 < #[trigger] wn[i] < 128 by {
                if i > 0 {
                    assert(wn[i] == name[i - 1]);
                }
            }
        }
    } else {
        assert(wn =~= name);
        assert(32 < name[0] < 126);
    }
    lemma_mark_is_word(wn);
}

/// A line that begins with the header mark is read as a header.
pub proof fn lemma_read_line_header(notes: Notes, draft: DraftView, line: Seq<u8>, how: Reading)
    requires
        header_mark().is_prefix_of(trimmed(line)),
    ensures
        read_line(notes, draft, line, how) == match filed(notes, draft, how.separator) {
            Err(e) => Err::<(Notes, DraftView), TodoErrorView>(e),
            Ok(after) => if bare_name(trimmed(trimmed(line).skip(2))).len() == 0 || bare_name(
                trimmed(trimmed(line).skip(2)),
            ) == root_name() {
                Err(TodoErrorView::ReservedName)
            } else {
                Ok((after, blank_draft(trimmed(trimmed(line).skip(2)))))
            },
        },
{
    reveal(read_line);
}

/// A line that begins with the owner mark and not with the header mark is
/// read as an owner.
pub proof fn lemma_read_line_owner(notes: Notes, draft: DraftView, line: Seq<u8>, how: Reading)
    requires
        !header_mark().is_prefix_of(trimmed(line)),
        owner_mark().is_prefix_of(trimmed(line)),
    ensures
        read_line(notes, draft, line, how) == Ok::<(Notes, DraftView), TodoErrorView>(
            (
                notes,
                if how.hide_owner {
                    draft
                } else {
                    DraftView {
                        owner: if draft.owner.len() > 0 {
                            draft.owner + seq![SPACE] + trimmed(trimmed(line).skip(3))
                        } else {
                            trimmed(trimmed(line).skip(3))
                        },
                        ..draft
                    }
                },
            ),
        ),
{
    reveal(read_line);
}

/// A line that begins with the comment mark and with no mark that goes
/// before it is read as a comment.
pub proof fn lemma_read_line_comment(notes: Notes, draft: DraftView, line: Seq<u8>, how: Reading)
    requires
        !header_mark().is_prefix_of(trimmed(line)),
        !owner_mark().is_prefix_of(trimmed(line)),
        comment_mark().is_prefix_of(trimmed(line)),
    ensures
        read_line(notes, draft, line, how) == Ok::<(Notes, DraftView), TodoErrorView>(
            (
                notes,
                if how.hide_comment {
                    draft
                } else {
                    DraftView {
                        comment: draft.comment.push(trimmed(trimmed(line).skip(3))),
                        ..draft
                    }
                },
            ),
        ),
{
    reveal(read_line);
}

/// A line that begins with no mark is kept, trimmed, with the draft.
pub proof fn lemma_read_line_plain(notes: Notes, draft: DraftView, line: Seq<u8>, how: Reading)
    requires
        !header_mark().is_prefix_of(trimmed(line)),
        !owner_mark().is_prefix_of(trimmed(line)),
        !comment_mark().is_prefix_of(trimmed(line)),
        !dependency_mark().is_prefix_of(trimmed(line)),
    ensures
        read_line(notes, draft, line, how) == Ok::<(Notes, DraftView), TodoErrorView>(
            (notes, DraftView { auxilaries: draft.auxilaries.push(trimmed(line)), ..draft }),
        ),
{
    reveal(read_line);
}

/// A header is read as a header: the draft is filed and a new one opened
/// under the name that the header gives.
pub proof fn lemma_read_header(notes: Notes, draft: DraftView, t: TodoView, how: Reading)
    requires
        is_name(t.name),
    ensures
        read_line(notes, draft, md_header(t), how) == match filed(notes, draft, how.separator) {
            Err(e) => Err::<(Notes, DraftView), TodoErrorView>(e),
            Ok(after) => Ok((after, blank_draft(written_name(t)))),
        },
{
    let wn = written_name(t);
    let line = md_header(t);
    lemma_written_name(t);
    assert(line =~= header_mark() + wn);
    lemma_word_tidy(wn);
    lemma_tidy_behind(header_mark(), wn);
    lemma_trimmed_tidy(line);
    assert(header_mark().is_prefix_of(line)) by {
        assert(line.subrange(0, 2) =~= header_mark());
    }
    assert(line.skip(2) =~= wn);
    lemma_trimmed_tidy(wn);
    lemma_read_line_header(notes, draft, line, how);
}

/// An owner line is read as the owner.
pub proof fn lemma_read_owner(notes: Notes, draft: DraftView, owner: Seq<u8>, how: Reading)
    requires
        !how.hide_owner,
        is_tidy(owner),
        owner.len() > 0,
        draft.owner.len() == 0,
    ensures
        read_line(notes, draft, owner_mark() + seq![SPACE] + owner, how) == Ok::<
            (Notes, DraftView),
            TodoErrorView,
        >((notes, DraftView { owner, ..draft })),
{
    let line = owner_mark() + seq![SPACE] + owner;
    lemma_marked_line(owner_mark(), owner);
    lemma_trimmed_behind_blank(owner);
    lemma_read_line_owner(notes, draft, line, how);
}

/// A line of no kind is kept with the draft.
pub proof fn lemma_read_plain(notes: Notes, draft: DraftView, a: Seq<u8>, how: Reading)
    requires
        is_plain_line(a),
    ensures
        read_line(notes, draft, a, how) == Ok::<(Notes, DraftView), TodoErrorView>(
            (notes, DraftView { auxilaries: draft.auxilaries.push(a), ..draft }),
        ),
{
    lemma_trimmed_tidy(a);
    lemma_read_line_plain(notes, draft, a, how);
}

/// Trimming an ASCII text with a blank behind it, which neither begins nor
/// ends with a blank itself, takes the blank away.
pub proof fn lemma_trimmed_mark(m: Seq<u8>)
    requires
        m.len() > 0,
        forall|i: int| 0 <= i < m.len() ==> #[trigger] m[i] < 128,
        m[0] > 32,
        m.last() > 32,
    ensures
        trimmed(m + seq![SPACE]) == m,
{
    let s = m + seq![SPACE];
    let n = s.len() as int;
    assert(s[0] == m[0]);
    assert(space_width(s, 0) == 0);
    assert(skip_space(s, 0) == 0);
    assert(s[n - 1] == SPACE);
    assert(space_width(s, n - 1) == 1);
    assert(space_width_back(s, 0, n) == 1);
    assert(s[n - 2] == m[m.len() - 1]);
    assert(space_width(s, n - 2) == 0);
    if n >= 3 {
        assert(s[n - 3] == m[m.len() - 2]);
        assert(m[m.len() - 2] < 128);
        assert(space_width(s, n - 3) != 2);
    }
    if n >= 4 {
        assert(s[n - 4] == m[m.len() - 3]);
        assert(m[m.len() - 3] < 128);
        assert(space_width(s, n - 4) != 3);
    }
    assert(space_width_back(s, 0, n - 1) == 0);
    assert(skip_space_back(s, 0, n - 1) == n - 1);
    assert(skip_space_back(s, 0, n) == n - 1);
    assert(s.subrange(0, n - 1) =~= m);
}

/// A comment line is read as a comment, or passed over if comments are
/// hidden.
pub proof fn lemma_read_comment(notes: Notes, draft: DraftView, c: Seq<u8>, how: Reading)
    requires
        is_tidy(c),
    ensures
        read_line(notes, draft, comment_mark() + seq![SPACE] + c, how) == Ok::<
            (Notes, DraftView),
            TodoErrorView,
        >(
            (
                notes,
                if how.hide_comment {
                    draft
                } else {
                    DraftView { comment: draft.comment.push(c), ..draft }
                },
            ),
        ),
{
    let a = comment_mark() + seq![SPACE];
    let line = comment_mark() + seq![SPACE] + c;
    let ln = trimmed(line);
    if c.len() > 0 {
        lemma_marked_line(comment_mark(), c);
        lemma_trimmed_behind_blank(c);
        assert(!owner_mark().is_prefix_of(line));
    } else {
        assert(line =~= a);
        lemma_trimmed_mark(comment_mark());
        assert(ln == comment_mark());
        assert(ln.skip(3) =~= c);
        lemma_trimmed_tidy(c);
        assert(ln[0] == 45 && ln[2] == 37);
        if header_mark().is_prefix_of(ln) {
            assert(ln[0] == header_mark()[0]);
        }
        if owner_mark().is_prefix_of(ln) {
            assert(ln[2] == owner_mark()[2]);
        }
        assert(comment_mark().is_prefix_of(ln));
    }
    lemma_read_line_comment(notes, draft, line, how);
}

/// What holds of a line made of a mark of three ASCII characters, a blank
/// and a tidy text that is not empty: trimming leaves it as it is, it is no
/// header, and what follows the mark is the blank and the text.
pub proof fn lemma_marked_line(mark: Seq<u8>, body: Seq<u8>)
    requires
        mark == owner_mark() || mark == comment_mark() || mark == dependency_mark(),
        is_tidy(body),
        body.len() > 0,
    ensures
        trimmed(mark + seq![SPACE] + body) == mark + seq![SPACE] + body,
        !header_mark().is_prefix_of(mark + seq![SPACE] + body),
        mark.is_prefix_of(mark + seq![SPACE] + body),
        (mark + seq![SPACE] + body).skip(3) == seq![SPACE] + body,
        forall|other: Seq<u8>|
            (other == owner_mark() || other == comment_mark() || other == dependency_mark())
                && other != mark ==> !other.is_prefix_of(mark + seq![SPACE] + body),
{
    let a = mark + seq![SPACE];
    let line = mark + seq![SPACE] + body;
    assert(line =~= a + body);
    lemma_tidy_behind(a, body);
    lemma_trimmed_tidy(line);
    assert(line[0] == 45);
    assert(line[2] == mark[2]);
    if header_mark().is_prefix_of(line) {
        assert(line[0] == header_mark()[0]);
    }
    assert(line.subrange(0, 3) =~= mark);
    assert(line.skip(3) =~= seq![SPACE] + body);
    assert forall|other: Seq<u8>|
        (other == owner_mark() || other == comment_mark() || other == dependency_mark()) && other
            != mark implies !other.is_prefix_of(line) by {
        if other.is_prefix_of(line) {
            assert(line[2] == other[2]);
            assert(other =~= mark);
        }
    }
}

/// A line that begins with the dependency mark and with no other is read
/// as dependencies, if none of them names the todo itself.
pub proof fn lemma_read_line_dependencies(
    notes: Notes,
    draft: DraftView,
    line: Seq<u8>,
    how: Reading,
)
    requires
        !header_mark().is_prefix_of(trimmed(line)),
        !owner_mark().is_prefix_of(trimmed(line)),
        !comment_mark().is_prefix_of(trimmed(line)),
        dependency_mark().is_prefix_of(trimmed(line)),
        crate::grammar::first_naming(
            draft.dependencies + words(trimmed(line).skip(3)),
            bare_name(draft.name),
            0,
        ) >= (draft.dependencies + words(trimmed(line).skip(3))).len(),
    ensures
        read_line(notes, draft, line, how) == Ok::<(Notes, DraftView), TodoErrorView>(
            (
                notes,
                DraftView {
                    dependencies: draft.dependencies + words(trimmed(line).skip(3)),
                    ..draft
                },
            ),
        ),
{
    reveal(read_line);
}

/// A line of dependencies is read as the dependencies.
#[verifier::rlimit(30)]
pub proof fn lemma_read_dependencies(
    notes: Notes,
    draft: DraftView,
    deps: Seq<Seq<u8>>,
    how: Reading,
)
    requires
        deps.len() > 0,
        forall|i: int| 0 <= i < deps.len() ==> is_word(#[trigger] deps[i]),
        forall|i: int|
            0 <= i < deps.len() ==> bare_name(#[trigger] deps[i]) != bare_name(draft.name),
        draft.dependencies.len() == 0,
    ensures
        read_line(
            notes,
            draft,
            dependency_mark() + seq![SPACE] + joined(deps, seq![SPACE]),
            how,
        ) == Ok::<(Notes, DraftView), TodoErrorView>(
            (notes, DraftView { dependencies: deps, ..draft }),
        ),
{
    let list = joined(deps, seq![SPACE]);
    let line = dependency_mark() + seq![SPACE] + list;
    lemma_words_joined(deps);
    lemma_marked_line(dependency_mark(), list);
    assert(trimmed(line) == line);
    assert(!owner_mark().is_prefix_of(line));
    assert(!comment_mark().is_prefix_of(line));
    assert(words(line.skip(3)) == deps);
    assert(draft.dependencies + deps =~= deps);
    crate::assemble::lemma_first_naming(deps, bare_name(draft.name), 0);
    assert(crate::grammar::first_naming(deps, bare_name(draft.name), 0) >= deps.len());
    lemma_read_line_dependencies(notes, draft, line, how);
}

/// Whether the definition of `t`, written as markdown, is read back as it
/// is: the name is fit for a defined todo; the owner and each comment line
/// are tidy, and there as the reading keeps them; each dependency names,
/// its marker aside, a word without marker that is not the todo's own name;
/// and the lines that follow are lines of no kind.
pub open spec fn legible(t: TodoView, how: Reading) -> bool {
    &&& is_name(t.name)
    &&& is_tidy(t.owner)
    &&& how.hide_owner ==> t.owner.len() == 0
    &&& forall|i: int| 0 <= i < t.comment.len() ==> is_tidy(#[trigger] t.comment[i])
    &&& kept_comment(
        if how.hide_comment {
            Seq::empty()
        } else {
            t.comment
        },
        how.separator,
    ) == t.comment
    &&& forall|i: int|
        0 <= i < t.dependencies.len() ==> is_word(#[trigger] unmarked(t.dependencies)[i])
            && !is_marked(unmarked(t.dependencies)[i]) && unmarked(t.dependencies)[i] != t.name
    &&& t.auxilaries.len() > 0
    &&& forall|i: int| 0 <= i < t.auxilaries.len() ==> is_plain_line(#[trigger] t.auxilaries[i])
}

/// The draft that the lines of the definition of `t` are gathered into.
pub open spec fn draft_of(t: TodoView, how: Reading) -> DraftView {
    DraftView {
        name: written_name(t),
        owner: t.owner,
        comment: if how.hide_comment {
            Seq::empty()
        } else {
            t.comment
        },
        dependencies: unmarked(t.dependencies),
        auxilaries: t.auxilaries,
    }
}

/// The todo that reading the definition of `t` gives: `t` as it is defined,
/// with its dependencies without markers, and before anything is resolved.
pub open spec fn reread(t: TodoView) -> TodoView {
    TodoView {
        dependencies: unmarked(t.dependencies),
        children: Seq::empty(),
        height: 0,
        status: if t.status == Status::Completed {
            Status::Completed
        } else {
            Status::Pending
        },
        ..t
    }
}

/// Comment lines are read one after the other.
pub proof fn lemma_read_comments(
    notes: Notes,
    draft: DraftView,
    cs: Seq<Seq<u8>>,
    k: int,
    text: Seq<Seq<u8>>,
    i: int,
    how: Reading,
)
    requires
        0 <= k <= cs.len(),
        0 <= i,
        i + cs.len() - k <= text.len(),
        forall|j: int| k <= j < cs.len() ==> is_tidy(#[trigger] cs[j]),
        forall|j: int|
            k <= j < cs.len() ==> #[trigger] text[i + j - k] == comment_mark() + seq![SPACE]
                + cs[j],
    ensures
        read_lines(notes, draft, text, i, how) == read_lines(
            notes,
            if how.hide_comment {
                draft
            } else {
                DraftView { comment: draft.comment + cs.skip(k), ..draft }
            },
            text,
            i + cs.len() - k,
            how,
        ),
    decreases cs.len() - k,
{
    if k < cs.len() {
        assert(text[i + k - k] == comment_mark() + seq![SPACE] + cs[k]);
        lemma_read_comment(notes, draft, cs[k], how);
        let next = if how.hide_comment {
            draft
        } else {
            DraftView { comment: draft.comment.push(cs[k]), ..draft }
        };
        assert forall|j: int| k + 1 <= j < cs.len() implies #[trigger] text[i + 1 + j - (k + 1)]
            == comment_mark() + seq![SPACE] + cs[j] by {
            assert(text[i + j - k] == comment_mark() + seq![SPACE] + cs[j]);
        }
        lemma_read_comments(notes, next, cs, k + 1, text, i + 1, how);
        assert(draft.comment.push(cs[k]) + cs.skip(k + 1) =~= draft.comment + cs.skip(k));
    } else {
        assert(draft.comment + cs.skip(k) =~= draft.comment);
    }
}

/// Lines of no kind are kept one after the other.
pub proof fn lemma_read_plains(
    notes: Notes,
    draft: DraftView,
    ls: Seq<Seq<u8>>,
    k: int,
    text: Seq<Seq<u8>>,
    i: int,
    how: Reading,
)
    requires
        0 <= k <= ls.len(),
        0 <= i,
        i + ls.len() - k <= text.len(),
        forall|j: int| k <= j < ls.len() ==> is_plain_line(#[trigger] ls[j]),
        forall|j: int| k <= j < ls.len() ==> #[trigger] text[i + j - k] == ls[j],
    ensures
        read_lines(notes, draft, text, i, how) == read_lines(
            notes,
            DraftView { auxilaries: draft.auxilaries + ls.skip(k), ..draft },
            text,
            i + ls.len() - k,
            how,
        ),
    decreases ls.len() - k,
{
    if k < ls.len() {
        assert(text[i + k - k] == ls[k]);
        lemma_read_plain(notes, draft, ls[k], how);
        let next = DraftView { auxilaries: draft.auxilaries.push(ls[k]), ..draft };
        assert forall|j: int| k + 1 <= j < ls.len() implies #[trigger] text[i + 1 + j - (k + 1)]
            == ls[j] by {
            assert(text[i + j - k] == ls[j]);
        }
        lemma_read_plains(notes, next, ls, k + 1, text, i + 1, how);
        assert(draft.auxilaries.push(ls[k]) + ls.skip(k + 1) =~= draft.auxilaries + ls.skip(k));
    } else {
        assert(draft.auxilaries + ls.skip(k) =~= draft.auxilaries);
    }
}

/// The lines of a definition are read as the definition: the draft that
/// was open is filed, and the lines are gathered into the draft of the todo.
pub proof fn lemma_read_definition(
    notes: Notes,
    draft: DraftView,
    t: TodoView,
    text: Seq<Seq<u8>>,
    i: int,
    how: Reading,
)
    requires
        legible(t, how),
        0 <= i,
        i + md_lines(t).len() <= text.len(),
        text.subrange(i, i + md_lines(t).len()) == md_lines(t),
    ensures
        read_lines(notes, draft, text, i, how) == match filed(notes, draft, how.separator) {
            Err(e) => Err::<Notes, TodoErrorView>(e),
            Ok(after) => read_lines(after, draft_of(t, how), text, i + md_lines(t).len(), how),
        },
{
    let all = md_lines(t);
    let m = all.len() as int;
    let head = seq![md_header(t)];
    let own = md_owner(t);
    let dep = md_dependencies(t);
    let com = md_comments(t.comment);
    let aux = t.auxilaries;
    assert(all == head + own + dep + com + aux);
    assert forall|j: int| 0 <= j < m implies text[i + j] == all[j] by {
        assert(text.subrange(i, i + m)[j] == text[i + j]);
    }
    lemma_written_name(t);
    // the header
    assert(text[i] == md_header(t)) by {
        assert(all[0] == md_header(t));
    }
    lemma_read_header(notes, draft, t, how);
    match filed(notes, draft, how.separator) {
        Err(_) => {},
        Ok(after) => {
            let d0 = blank_draft(written_name(t));
            assert(read_lines(notes, draft, text, i, how) == read_lines(
                after,
                d0,
                text,
                i + 1,
                how,
            ));
            // the owner
            let d1 = DraftView { owner: t.owner, ..d0 };
            let i1 = i + 1 + own.len();
            if t.owner.len() > 0 {
                assert(text[i + 1] == owner_mark() + seq![SPACE] + t.owner) by {
                    assert(all[1] == own[0]);
                }
                lemma_read_owner(after, d0, t.owner, how);
            } else {
                assert(d1 == d0) by {
                    assert(t.owner =~= Seq::<u8>::empty());
                }
            }
            assert(read_lines(after, d0, text, i + 1, how) == read_lines(
                after,
                d1,
                text,
                i1,
                how,
            ));
            // the dependencies
            let d2 = DraftView { dependencies: unmarked(t.dependencies), ..d1 };
            let i2 = i1 + dep.len();
            if t.dependencies.len() > 0 {
                assert(text[i1] == dependency_mark() + seq![SPACE] + joined(
                    unmarked(t.dependencies),
                    seq![SPACE],
                )) by {
                    assert(all[1 + own.len() as int] == dep[0]);
                }
                assert forall|j: int| 0 <= j < unmarked(t.dependencies).len() implies bare_name(
                    #[trigger] unmarked(t.dependencies)[j],
                ) != bare_name(d1.name) by {
                    assert(!is_marked(unmarked(t.dependencies)[j]));
                }
                lemma_read_dependencies(after, d1, unmarked(t.dependencies), how);
            } else {
                assert(d2 == d1) by {
                    assert(unmarked(t.dependencies) =~= Seq::<Seq<u8>>::empty());
                }
            }
            assert(read_lines(after, d1, text, i1, how) == read_lines(after, d2, text, i2, how));
            // the comment
            let d3 = if how.hide_comment {
                d2
            } else {
                DraftView { comment: t.comment, ..d2 }
            };
            let i3 = i2 + com.len();
            assert forall|j: int| 0 <= j < t.comment.len() implies #[trigger] text[i2 + j - 0]
                == comment_mark() + seq![SPACE] + t.comment[j] by {
                assert(all[1 + own.len() as int + dep.len() as int + j] == com[j]);
            }
            lemma_read_comments(after, d2, t.comment, 0, text, i2, how);
            assert(d2.comment + t.comment.skip(0) =~= t.comment);
            assert(read_lines(after, d2, text, i2, how) == read_lines(after, d3, text, i3, how));
            // the lines that follow
            let d4 = DraftView { auxilaries: aux, ..d3 };
            assert forall|j: int| 0 <= j < aux.len() implies #[trigger] text[i3 + j - 0]
                == aux[j] by {
                assert(all[1 + own.len() as int + dep.len() as int + com.len() as int + j] == aux[j]);
            }
            lemma_read_plains(after, d3, aux, 0, text, i3, how);
            assert(d3.auxilaries + aux.skip(0) =~= aux);
            assert(d4 == draft_of(t, how));
        },
    }
}

/// The draft of a legible todo is filed as the todo, if its name is not
/// taken.
pub proof fn lemma_filed_definition(notes: Notes, t: TodoView, how: Reading)
    requires
        legible(t, how),
        find(notes.dict, t.name) >= notes.dict.len(),
    ensures
        filed(notes, draft_of(t, how), how.separator) == Ok::<Notes, TodoErrorView>(
            Notes { dict: notes.dict.push(reread(t)), ..notes },
        ),
{
    lemma_written_name(t);
    let d = draft_of(t, how);
    assert(d.name.len() > 0);
    assert(kept_auxilaries(t.auxilaries) == t.auxilaries);
    let made = new_todo(
        d.name,
        d.owner,
        kept_comment(d.comment, how.separator),
        d.dependencies,
        d.auxilaries,
    );
    assert(made == Ok::<TodoView, TodoErrorView>(reread(t)));
}

/// The lines of the definitions of `nodes`, one definition after the other.
pub open spec fn all_lines(nodes: Seq<TodoView>) -> Seq<Seq<u8>>
    decreases nodes.len(),
{
    if nodes.len() == 0 {
        Seq::empty()
    } else {
        md_lines(nodes[0]) + all_lines(nodes.drop_first())
    }
}

/// The todos that reading the definitions of `nodes` gives.
pub open spec fn rereads(nodes: Seq<TodoView>) -> Seq<TodoView> {
    Seq::new(nodes.len(), |j: int| reread(nodes[j]))
}

/// The lines of definitions one after the other are the lines of the first
/// and then those of the others.
pub proof fn lemma_all_lines_add(a: Seq<TodoView>, b: Seq<TodoView>)
    ensures
        all_lines(a + b) == all_lines(a) + all_lines(b),
    decreases a.len(),
{
    if a.len() == 0 {
        assert(a + b =~= b);
        assert(all_lines(a) + all_lines(b) =~= all_lines(b));
    } else {
        assert((a + b).drop_first() =~= a.drop_first() + b);
        lemma_all_lines_add(a.drop_first(), b);
        assert(md_lines(a[0]) + (all_lines(a.drop_first()) + all_lines(b)) =~= (md_lines(a[0])
            + all_lines(a.drop_first())) + all_lines(b));
    }
}

/// As markdown, a tree is the definition of its top and then the
/// definitions of the todos below it.
pub proof fn lemma_rendered_md(t: TodoView, f: Frame, no_color: bool)
    ensures
        rendered(t, f, Format::Md, no_color) == unlines(md_lines(t) + all_lines(below(t))),
    decreases t, t.children.len() + 1,
{
    lemma_rendered(t, f, Format::Md, no_color);
    lemma_rendered_children_md(t, f, no_color, 0);
    lemma_unlines_add(md_lines(t), all_lines(below(t)));
}

/// As markdown, the children of a todo are their definitions and those of
/// the todos below them.
pub proof fn lemma_rendered_children_md(t: TodoView, f: Frame, no_color: bool, k: int)
    ensures
        rendered_children(t, f, Format::Md, no_color, k) == unlines(all_lines(below_from(t, k))),
    decreases t, t.children.len() - k,
{
    lemma_rendered_children(t, f, Format::Md, no_color, k);
    if 0 <= k < t.children.len() {
        let c = t.children[k];
        lemma_rendered_md(c, f.child(k + 1 == t.children.len()), no_color);
        lemma_rendered_children_md(t, f, no_color, k + 1);
        let rest = below_from(t, k + 1);
        assert(below_from(t, k) == seq![c] + below(c) + rest);
        lemma_all_lines_add(seq![c] + below(c), rest);
        lemma_all_lines_add(seq![c], below(c));
        assert(all_lines(seq![c]) =~= md_lines(c)) by {
            assert(seq![c].drop_first() =~= Seq::<TodoView>::empty());
            assert(md_lines(c) + all_lines(Seq::<TodoView>::empty()) =~= md_lines(c));
        }
        lemma_unlines_add(md_lines(c) + all_lines(below(c)), all_lines(rest));
        assert(Seq::<u8>::empty() + unlines(md_lines(c) + all_lines(below(c))) + unlines(
            all_lines(rest),
        ) =~= unlines(md_lines(c) + all_lines(below(c))) + unlines(all_lines(rest)));
    } else {
        assert(all_lines(below_from(t, k)) =~= Seq::<Seq<u8>>::empty());
    }
}

/// The definitions of legible todos with names of their own are read as
/// those todos, one after the other.
pub proof fn lemma_read_definitions(
    notes: Notes,
    draft: DraftView,
    nodes: Seq<TodoView>,
    text: Seq<Seq<u8>>,
    i: int,
    how: Reading,
)
    requires
        nodes.len() > 0,
        forall|j: int| 0 <= j < nodes.len() ==> legible(#[trigger] nodes[j], how),
        forall|a: int, b: int|
            0 <= a < b < nodes.len() ==> (#[trigger] nodes[a]).name != (#[trigger] nodes[b]).name,
        0 <= i <= text.len(),
        text.subrange(i, text.len() as int) == all_lines(nodes),
        filed(notes, draft, how.separator) is Ok,
        forall|j: int, x: int|
            0 <= j < nodes.len() && 0 <= x < filed(notes, draft, how.separator)->Ok_0.dict.len()
                ==> (#[trigger] filed(notes, draft, how.separator)->Ok_0.dict[x]).name
                != (#[trigger] nodes[j]).name,
    ensures
        read_lines(notes, draft, text, i, how) == Ok::<Notes, TodoErrorView>(
            Notes {
                dict: filed(notes, draft, how.separator)->Ok_0.dict + rereads(nodes),
                prelude: filed(notes, draft, how.separator)->Ok_0.prelude,
            },
        ),
    decreases nodes.len(),
{
    let after = filed(notes, draft, how.separator)->Ok_0;
    let t = nodes[0];
    let rest = nodes.drop_first();
    let m = md_lines(t).len() as int;
    let tail = text.subrange(i, text.len() as int);
    assert(tail == md_lines(t) + all_lines(rest));
    assert(i + m <= text.len()) by {
        assert(tail.len() == text.len() - i);
    }
    assert(text.subrange(i, i + m) =~= md_lines(t)) by {
        assert forall|j: int| 0 <= j < m implies text.subrange(i, i + m)[j] == md_lines(t)[j] by {
            assert(tail[j] == text[i + j]);
        }
    }
    assert(text.subrange(i + m, text.len() as int) =~= all_lines(rest)) by {
        assert forall|j: int| 0 <= j < all_lines(rest).len() implies text.subrange(
            i + m,
            text.len() as int,
        )[j] == all_lines(rest)[j] by {
            assert(tail[m + j] == text[i + m + j]);
        }
    }
    assert(legible(t, how));
    lemma_read_definition(notes, draft, t, text, i, how);
    assert(find(after.dict, t.name) >= after.dict.len()) by {
        lemma_find_from(after.dict, t.name, 0);
        let d = find(after.dict, t.name);
        if d < after.dict.len() {
            assert(after.dict[d].name != nodes[0].name);
        }
    }
    lemma_filed_definition(after, t, how);
    let next = Notes { dict: after.dict.push(reread(t)), ..after };
    if rest.len() == 0 {
        assert(all_lines(rest) =~= Seq::<Seq<u8>>::empty());
        assert(i + m == text.len());
        assert(rereads(nodes) =~= seq![reread(t)]);
        assert(after.dict + rereads(nodes) =~= next.dict);
    } else {
        assert forall|j: int| 0 <= j < rest.len() implies legible(#[trigger] rest[j], how) by {
            assert(rest[j] == nodes[j + 1]);
        }
        assert forall|a: int, b: int| 0 <= a < b < rest.len() implies (#[trigger] rest[a]).name != (
        #[trigger] rest[b]).name by {
            assert(rest[a] == nodes[a + 1]);
            assert(rest[b] == nodes[b + 1]);
        }
        assert forall|j: int, x: int| 0 <= j < rest.len() && 0 <= x < next.dict.len() implies (
        #[trigger] next.dict[x]).name != (#[trigger] rest[j]).name by {
            assert(rest[j] == nodes[j + 1]);
            if x < after.dict.len() {
                assert(next.dict[x] == after.dict[x]);
            } else {
                assert(next.dict[x].name == nodes[0].name);
            }
        }
        lemma_read_definitions(after, draft_of(t, how), rest, text, i + m, how);
        assert(rereads(nodes) =~= seq![reread(t)] + rereads(rest)) by {
            assert forall|j: int| 0 <= j < nodes.len() implies rereads(nodes)[j] == (seq![
                reread(t),
            ] + rereads(rest))[j] by {
                if j > 0 {
                    assert(rest[j - 1] == nodes[j]);
                }
            }
        }
        assert(next.dict + rereads(rest) =~= after.dict + rereads(nodes));
    }
}

/// A newline-free stretch in front of a newline is a line.
pub proof fn lemma_line_end_run(s: Seq<u8>, a: int, e: int)
    requires
        0 <= a <= e < s.len(),
        forall|j: int| a <= j < e ==> s[j] != NEWLINE,
        s[e] == NEWLINE,
    ensures
        line_end(s, a) == e,
    decreases e - a,
{
    if a < e {
        lemma_line_end_run(s, a + 1, e);
    }
}

/// Lines without a newline in them, each followed by one, are read back as
/// those lines.
pub proof fn lemma_lines_unlines(pre: Seq<u8>, ls: Seq<Seq<u8>>)
    requires
        forall|j: int| 0 <= j < ls.len() ==> !(#[trigger] ls[j]).contains(NEWLINE),
    ensures
        lines_from(pre + unlines(ls), pre.len() as int) == ls,
    decreases ls.len(),
{
    let s = pre + unlines(ls);
    let i = pre.len() as int;
    if ls.len() == 0 {
        assert(s =~= pre);
        assert(ls =~= Seq::<Seq<u8>>::empty());
    } else {
        let l = ls[0];
        let rest = ls.drop_first();
        let e = i + l.len();
        assert(unlines(ls) == l + seq![NEWLINE] + unlines(rest));
        assert(s[e] == NEWLINE);
        assert forall|j: int| i <= j < e implies s[j] != NEWLINE by {
            assert(s[j] == l[j - i]);
            assert(!ls[0].contains(NEWLINE));
        }
        lemma_line_end_run(s, i, e);
        let next = pre + l + seq![NEWLINE];
        assert(next + unlines(rest) =~= s);
        assert forall|j: int| 0 <= j < rest.len() implies !(#[trigger] rest[j]).contains(
            NEWLINE,
        ) by {
            assert(rest[j] == ls[j + 1]);
        }
        lemma_lines_unlines(next, rest);
        assert(s.subrange(i, e) =~= l);
        assert(ls =~= seq![l] + rest);
        assert(next.len() == e + 1);
    }
}

/// Whether each line is free of newlines.
pub open spec fn newline_free(ls: Seq<Seq<u8>>) -> bool {
    forall|j: int| 0 <= j < ls.len() ==> !(#[trigger] ls[j]).contains(NEWLINE)
}

/// Resolving escapes changes nothing in a text without backslash and tab,
/// from whatever index on it is done.
pub proof fn law_escaped_plain(s: Seq<u8>, i: int)
    requires
        0 <= i <= s.len(),
        !s.contains(BACKSLASH),
        !s.contains(TAB),
    ensures
        escaped_from(s, i, false) == s.skip(i),
    decreases s.len() - i,
{
    if i < s.len() {
        law_escaped_plain(s, i + 1);
        assert(s[i] != BACKSLASH && s[i] != TAB);
        assert(seq![s[i]] + s.skip(i + 1) =~= s.skip(i));
    } else {
        assert(s.skip(i) =~= Seq::<u8>::empty());
    }
}

/// Markdown round trip.
///
/// Take a tree in the markdown format whose todos are legible under the way
/// of reading `how` and have names of their own, whose prelude holds lines
/// of no kind, and whose lines are free of newlines. If rendering it gives a
/// text in which resolving escapes changes nothing (as in every text without
/// backslash and tab, see [`law_escaped_plain`]), then reading that text
/// gives the prelude back, and the todos of the tree in the order in which
/// they are drawn: each with its name, owner, comment and following lines,
/// with its dependencies without markers, and completed if it was completed.
pub proof fn law_markdown_round_trip(tree: TreeView, how: Reading)
    requires
        tree.format == Format::Md,
        tree.root.name == root_name(),
        forall|j: int|
            0 <= j < below(tree.root).len() ==> legible(#[trigger] below(tree.root)[j], how),
        forall|a: int, b: int|
            0 <= a < b < below(tree.root).len() ==> (#[trigger] below(tree.root)[a]).name != (
            #[trigger] below(tree.root)[b]).name,
        forall|j: int| 0 <= j < tree.prelude.len() ==> is_plain_line(#[trigger] tree.prelude[j]),
        newline_free(tree.prelude + all_lines(below(tree.root))),
        escaped(tree.rendered()) == tree.rendered(),
    ensures
        read(Notes { dict: Seq::empty(), prelude: Seq::empty() }, tree.rendered(), how) == Ok::<
            Notes,
            TodoErrorView,
        >(Notes { dict: rereads(below(tree.root)), prelude: tree.prelude }),
{
    let nodes = below(tree.root);
    let text = tree.prelude + all_lines(nodes);
    let start = Notes { dict: Seq::<TodoView>::empty(), prelude: Seq::<Seq<u8>>::empty() };
    let f = frame_of(tree.format, Seq::empty(), tree.widths, tree.reverse);
    lemma_rendered_md(tree.root, f, tree.no_color);
    assert(md_lines(tree.root) + all_lines(nodes) =~= all_lines(nodes));
    lemma_unlines_add(tree.prelude, all_lines(nodes));
    assert(tree.rendered() == unlines(text));
    lemma_lines_unlines(Seq::<u8>::empty(), text);
    assert(Seq::<u8>::empty() + unlines(text) =~= unlines(text));
    assert(lines(tree.rendered()) == text);
    let blank = blank_draft(Seq::<u8>::empty());
    let p = tree.prelude.len() as int;
    assert forall|j: int| 0 <= j < p implies #[trigger] text[0 + j - 0] == tree.prelude[j] by {}
    lemma_read_plains(start, blank, tree.prelude, 0, text, 0, how);
    let open = DraftView { auxilaries: tree.prelude, ..blank };
    assert(blank.auxilaries + tree.prelude.skip(0) =~= tree.prelude);
    assert(read_lines(start, blank, text, 0, how) == read_lines(start, open, text, p, how));
    let after = Notes { prelude: tree.prelude, ..start };
    assert(filed(start, open, how.separator) == Ok::<Notes, TodoErrorView>(after));
    if nodes.len() == 0 {
        assert(all_lines(nodes) =~= Seq::<Seq<u8>>::empty());
        assert(text.len() == p);
        assert(rereads(nodes) =~= Seq::<TodoView>::empty());
    } else {
        assert(text.subrange(p, text.len() as int) =~= all_lines(nodes));
        lemma_read_definitions(start, open, nodes, text, p, how);
        assert(after.dict + rereads(nodes) =~= rereads(nodes));
    }
}

/// The names shown below a todo are the names of the todos below it, cut
/// marks aside.
pub proof fn lemma_shown_below(t: TodoView)
    ensures
        shown(t).len() == below(t).len(),
        forall|j: int| 0 <= j < below(t).len() ==> shown(t)[j] == uncut(below(t)[j].name),
    decreases t, t.children.len() + 1,
{
    lemma_shown_below_from(t, 0);
}

/// The same of the children from the `k`-th on.
pub proof fn lemma_shown_below_from(t: TodoView, k: int)
    ensures
        shown_from(t, k).len() == below_from(t, k).len(),
        forall|j: int|
            0 <= j < below_from(t, k).len() ==> shown_from(t, k)[j] == uncut(
                below_from(t, k)[j].name,
            ),
    decreases t, t.children.len() - k,
{
    if 0 <= k < t.children.len() {
        let c = t.children[k];
        lemma_shown_below(c);
        lemma_shown_below_from(t, k + 1);
        assert(shown_from(t, k) == seq![uncut(c.name)] + shown(c) + shown_from(t, k + 1));
        assert(below_from(t, k) == seq![c] + below(c) + below_from(t, k + 1));
    }
}

/// Markdown round trip of a tree that was made from files.
///
/// Take a tree that [`crate::tree::Tree::new`] made in the markdown format,
/// whose todos are legible under the way of reading `how`, whose prelude
/// holds lines of no kind, and whose lines are free of newlines. If
/// rendering it gives a text in which resolving escapes changes nothing,
/// then reading that text gives the prelude back, and the todos of the tree
/// in the order in which they are drawn.
pub proof fn law_tree_round_trip(req: Request, how: Reading)
    requires
        planted(req) is Ok,
        planted(req)->Ok_0.format == Format::Md,
        forall|j: int|
            0 <= j < below(planted(req)->Ok_0.root).len() ==> legible(
                #[trigger] below(planted(req)->Ok_0.root)[j],
                how,
            ),
        forall|j: int|
            0 <= j < planted(req)->Ok_0.prelude.len() ==> is_plain_line(
                #[trigger] planted(req)->Ok_0.prelude[j],
            ),
        newline_free(planted(req)->Ok_0.prelude + all_lines(below(planted(req)->Ok_0.root))),
        escaped(planted(req)->Ok_0.rendered()) == planted(req)->Ok_0.rendered(),
    ensures
        read(
            Notes { dict: Seq::empty(), prelude: Seq::empty() },
            planted(req)->Ok_0.rendered(),
            how,
        ) == Ok::<Notes, TodoErrorView>(
            Notes {
                dict: rereads(below(planted(req)->Ok_0.root)),
                prelude: planted(req)->Ok_0.prelude,
            },
        ),
{
    let tree = planted(req)->Ok_0;
    let nodes = below(tree.root);
    law_tree_shows_once(req);
    lemma_planted_root(req);
    lemma_shown_below(tree.root);
    assert forall|a: int, b: int| 0 <= a < b < nodes.len() implies (#[trigger] nodes[a]).name != (
    #[trigger] nodes[b]).name by {
        assert(legible(nodes[a], how));
        assert(legible(nodes[b], how));
        assert(shown(tree.root)[a] != shown(tree.root)[b]);
    }
    law_markdown_round_trip(tree, how);
}

} // verus!
