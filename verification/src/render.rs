//! What a resolved tree looks like in each output format, as mathematical
//! definitions over [`TodoView`]. The executable renderers in [`crate::draw`]
//! are proved to write exactly these bytes.
use crate::{Format, Status};
use crate::grammar::{comment_mark, dependency_mark, header_mark, owner_mark};
use crate::text::{decimal, joined, repeated, zero_padded, NEWLINE, SPACE, TILDE};
use crate::todo::{bare_name, root_name, TodoView};
use vstd::prelude::*;
use vstd::string::*;

verus! {

/// What surrounds a node while a table is drawn.
pub ghost struct Frame {
    /// One flag per ancestor and one for the node itself, outermost first:
    /// whether that todo is the last child of its parent.
    pub connectors: Seq<bool>,
    /// The widths of the name, owner and comment columns.
    pub widths: Seq<usize>,
    /// What stands for one blank column.
    pub space: Seq<u8>,
    /// What opens a row.
    pub bol: Seq<u8>,
    /// Whether children are drawn above their parent.
    pub reverse: bool,
}

impl Frame {
    /// The frame of a child of the framed node.
    pub open spec fn child(self, last: bool) -> Frame {
        Frame { connectors: self.connectors.push(last), ..self }
    }

    /// Whether both the owner and the comment column are missing.
    pub open spec fn bare(self) -> bool {
        self.widths[1] + self.widths[2] == 0
    }
}

/// `n` blank columns; none when `n` is not positive.
pub open spec fn blanks(space: Seq<u8>, n: int) -> Seq<u8> {
    if n <= 0 {
        Seq::empty()
    } else {
        repeated(space, n as nat)
    }
}

/// What opens each row of an HTML table.
pub open spec fn html_row_start() -> Seq<u8> {
    "<p style='font-family: monospace; font-size: 16px; margin: 0px; line-height: 16px'>".spec_bytes()
}

/// The frame of a node in `format`, with the blank and the row start of that
/// format.
pub open spec fn frame_of(
    format: Format,
    connectors: Seq<bool>,
    widths: Seq<usize>,
    reverse: bool,
) -> Frame {
    if format == Format::Html {
        Frame { connectors, widths, space: "&nbsp;".spec_bytes(), bol: html_row_start(), reverse }
    } else {
        Frame { connectors, widths, space: " ".spec_bytes(), bol: Seq::empty(), reverse }
    }
}

/// What closes a row in `format`.
pub open spec fn eol_of(format: Format) -> Seq<u8> {
    if format == Format::Html {
        "</p>\n".spec_bytes()
    } else {
        "\n".spec_bytes()
    }
}

/// The branch drawn for the connector at `pos`: for an ancestor, a vertical
/// line or blanks; for the node itself, a tee or a corner. In a reversed
/// table the corner opens downward.
pub open spec fn branch(connectors: Seq<bool>, space: Seq<u8>, reverse: bool, pos: int) -> Seq<u8> {
    if connectors[pos] {
        if pos + 1 < connectors.len() {
            repeated(space, 4)
        } else if reverse {
            "┌──".spec_bytes() + space
        } else {
            "└──".spec_bytes() + space
        }
    } else if pos + 1 < connectors.len() {
        "│".spec_bytes() + repeated(space, 3)
    } else {
        "├──".spec_bytes() + space
    }
}

/// The branches from `pos` on.
pub open spec fn branches(connectors: Seq<bool>, space: Seq<u8>, reverse: bool, pos: int) -> Seq<
    u8,
>
    decreases connectors.len() - pos,
{
    if pos < 0 || pos >= connectors.len() {
        Seq::empty()
    } else {
        branch(connectors, space, reverse, pos) + branches(connectors, space, reverse, pos + 1)
    }
}

/// What stands in front of a name in its row: the row start and one branch
/// for each connector.
pub open spec fn connector(
    connectors: Seq<bool>,
    space: Seq<u8>,
    bol: Seq<u8>,
    reverse: bool,
) -> Seq<u8> {
    bol + branches(connectors, space, reverse, 0)
}

/// The vertical lines that pass through a row that holds no name, from the
/// connector at `pos` on. Through the rows that follow a name in a reversed
/// table (`below`), the line of the node's own parent always passes.
pub open spec fn rails(f: Frame, below: bool, pos: int) -> Seq<u8>
    decreases f.connectors.len() - pos,
{
    if pos < 0 || pos >= f.connectors.len() {
        Seq::empty()
    } else {
        (if f.connectors[pos] && !(below && pos + 1 == f.connectors.len()) {
            f.space
        } else {
            "│".spec_bytes()
        }) + repeated(f.space, 3) + rails(f, below, pos + 1)
    }
}

/// Whether every connector says "last child".
pub open spec fn all_last(connectors: Seq<bool>) -> bool {
    forall|i: int| 0 <= i < connectors.len() ==> connectors[i]
}

/// Whether the rule of `t` closes the table: nothing is drawn beyond it.
pub open spec fn closes(t: TodoView, f: Frame) -> bool {
    t.children.len() == 0 && all_last(f.connectors)
}

/// The start of a row without a name, up to the end of the name column.
pub open spec fn margin(t: TodoView, f: Frame, below: bool) -> Seq<u8> {
    f.bol + rails(f, below, 0) + (if t.children.len() == 0 || below {
        f.space
    } else {
        "│".spec_bytes()
    }) + blanks(f.space, f.widths[0] - 1 - 4 * f.connectors.len())
}

/// What stands in front of the second and later rows of a comment: the
/// margin, then an empty owner cell.
pub open spec fn continuation(t: TodoView, f: Frame) -> Seq<u8> {
    margin(t, f, f.reverse) + f.space + "│".spec_bytes() + f.space + repeated(
        f.space,
        f.widths[1] as nat,
    ) + (if f.widths[1] > 0 && f.widths[2] > 0 {
        f.space + "│".spec_bytes() + f.space
    } else {
        Seq::empty()
    })
}

/// The horizontal rule that separates the rows of `t` from the next todo's.
/// Where it closes the table, corners stand in place of tees.
pub open spec fn rule(t: TodoView, f: Frame) -> Seq<u8> {
    let end = closes(t, f);
    margin(t, f, false) + f.space + (if !end {
        "├─".spec_bytes()
    } else if f.reverse {
        "┌─".spec_bytes()
    } else {
        "└─".spec_bytes()
    }) + repeated("─".spec_bytes(), f.widths[1] as nat) + (if f.widths[1] > 0 && f.widths[2] > 0 {
        if !end {
            "─┼─".spec_bytes()
        } else if f.reverse {
            "─┬─".spec_bytes()
        } else {
            "─┴─".spec_bytes()
        }
    } else {
        Seq::empty()
    }) + repeated("─".spec_bytes(), f.widths[2] as nat) + (if !end {
        "─┤".spec_bytes()
    } else if f.reverse {
        "─┐".spec_bytes()
    } else {
        "─┘".spec_bytes()
    })
}

/// The comment lines that are drawn: one empty line when there is none.
pub open spec fn shown_comment(t: TodoView) -> Seq<Seq<u8>> {
    if t.comment.len() == 0 {
        seq![Seq::<u8>::empty()]
    } else {
        t.comment
    }
}

/// The number of decimal digits of the largest comment number.
pub open spec fn number_digits(t: TodoView) -> nat {
    decimal(shown_comment(t).len()).len()
}

/// The columns that the number in front of each comment line takes: none
/// unless the todo has two comment lines or more.
pub open spec fn number_width(t: TodoView) -> nat {
    if t.comment.len() <= 1 {
        0
    } else {
        number_digits(t) + 2
    }
}

/// The columns left for comment text in each row, at least one.
pub open spec fn text_width(t: TodoView, f: Frame) -> int {
    if f.widths[2] > number_width(t) {
        f.widths[2] - number_width(t)
    } else {
        1
    }
}

/// The bytes of comment line `idx` that stand in the row that begins at byte
/// `start` of the line: as many as are left, at most the text width.
pub open spec fn piece_len(t: TodoView, f: Frame, idx: int, start: int) -> int {
    let left = shown_comment(t)[idx].len() - start;
    if left < text_width(t, f) {
        left
    } else {
        text_width(t, f)
    }
}

/// One row of comment line `idx`, from the comment cell on: the number of
/// the line if lines are numbered and this is the line's first row, blanks
/// of that width in its further rows; then the piece of the line that starts
/// at byte `start`, filled up with blanks to the text width; then the border.
pub open spec fn comment_row(t: TodoView, f: Frame, eol: Seq<u8>, idx: int, start: int) -> Seq<
    u8,
> {
    let len = piece_len(t, f, idx, start);
    (if number_width(t) == 0 {
        Seq::empty()
    } else if start == 0 {
        zero_padded((idx + 1) as nat, number_digits(t)) + ".".spec_bytes() + f.space
    } else {
        repeated(f.space, number_width(t))
    }) + shown_comment(t)[idx].subrange(start, start + len) + blanks(
        f.space,
        text_width(t, f) - len,
    ) + f.space + "│".spec_bytes() + eol
}

/// The rows of comment line `idx` from byte `start` of the line on. A line
/// longer than the text width goes on in further rows, each begun by the
/// continuation.
pub open spec fn comment_line(t: TodoView, f: Frame, eol: Seq<u8>, idx: int, start: int) -> Seq<
    u8,
>
    decreases shown_comment(t)[idx].len() - start,
{
    let len = piece_len(t, f, idx, start);
    if start < 0 || len <= 0 || start + len >= shown_comment(t)[idx].len() {
        comment_row(t, f, eol, idx, start)
    } else {
        comment_row(t, f, eol, idx, start) + continuation(t, f) + comment_line(
            t,
            f,
            eol,
            idx,
            start + len,
        )
    }
}

/// The rows of the comment lines from `idx` on.
pub open spec fn comment_lines(t: TodoView, f: Frame, eol: Seq<u8>, idx: int) -> Seq<u8>
    decreases shown_comment(t).len() - idx,
{
    if idx < 0 || idx >= shown_comment(t).len() {
        Seq::empty()
    } else {
        (if idx > 0 {
            continuation(t, f)
        } else {
            Seq::empty()
        }) + comment_line(t, f, eol, idx, 0) + comment_lines(t, f, eol, idx + 1)
    }
}

/// The comment cell with all that follows it: the rows of the comment and,
/// unless the table is reversed, the rule.
pub open spec fn comment_cell(t: TodoView, f: Frame, eol: Seq<u8>) -> Seq<u8> {
    comment_lines(t, f, eol, 0) + if f.reverse {
        Seq::empty()
    } else {
        rule(t, f)
    }
}

/// The owner cell with its right border.
pub open spec fn owner_cell(t: TodoView, f: Frame) -> Seq<u8> {
    if f.widths[1] > 0 {
        t.owner + blanks(f.space, 1 + f.widths[1] - t.owner.len()) + "│".spec_bytes() + (if f.widths[2]
            > 0 {
            f.space
        } else {
            Seq::empty()
        })
    } else {
        Seq::empty()
    }
}

/// What follows the name in its row, and the rows after it: the cells of the
/// table, or the bare end of the row when the table has neither owner nor
/// comment column.
pub open spec fn table(t: TodoView, f: Frame, eol: Seq<u8>) -> Seq<u8> {
    if f.bare() {
        eol
    } else {
        blanks(f.space, f.widths[0] - 4 * f.connectors.len() - t.name.len()) + f.space
            + "│".spec_bytes() + f.space + owner_cell(t, f) + (if f.widths[2] > 0 {
            comment_cell(t, f, eol)
        } else if f.reverse {
            eol
        } else {
            eol + rule(t, f)
        }) + (if f.reverse {
            Seq::empty()
        } else {
            eol
        })
    }
}

/// What switches the colour of a name on: blue for a completed todo, red for
/// an actionable one, as an escape sequence for terminals and as a `span` in
/// HTML.
pub open spec fn colour_on(status: Status, format: Format) -> Seq<u8> {
    match (status, format) {
        (Status::Pending, _) => Seq::empty(),
        (Status::Completed, Format::Html) => "<span style='color:blue'>".spec_bytes(),
        (Status::Actionable, Format::Html) => "<span style='color:red'>".spec_bytes(),
        (Status::Completed, _) => "\x1b[34m".spec_bytes(),
        (Status::Actionable, _) => "\x1b[31m".spec_bytes(),
    }
}

/// What switches the colour off again.
pub open spec fn colour_off(status: Status, format: Format) -> Seq<u8> {
    match (status, format) {
        (Status::Pending, _) => Seq::empty(),
        (_, Format::Html) => "</span>".spec_bytes(),
        _ => "\x1b(B\x1b[m".spec_bytes(),
    }
}

/// The name as it is drawn in a table, in the colour of its status unless
/// colours are off.
pub open spec fn name_cell(t: TodoView, format: Format, no_color: bool) -> Seq<u8> {
    if no_color {
        t.name
    } else {
        colour_on(t.status, format) + t.name + colour_off(t.status, format)
    }
}

/// The rows of one todo in a table: its name row with the cells, the further
/// rows of its comment, and the rule, which follows the rows or, in a
/// reversed table, leads them.
pub open spec fn block(t: TodoView, f: Frame, format: Format, no_color: bool) -> Seq<u8> {
    (if f.reverse && !f.bare() {
        rule(t, f) + eol_of(format)
    } else {
        Seq::empty()
    }) + connector(f.connectors, f.space, f.bol, f.reverse) + name_cell(t, format, no_color)
        + table(t, f, eol_of(format))
}

/// Whether the columns are wide enough for `t` at `depth` and for all below
/// it: if there is an owner or a comment column, the name column holds each
/// name behind its connector, and the owner column, if there is one, holds
/// each owner.
pub open spec fn fits(t: TodoView, depth: nat, widths: Seq<usize>) -> bool
    decreases t,
{
    &&& widths.len() == 3
    &&& (widths[1] + widths[2] > 0 ==> 4 * depth + t.name.len() <= widths[0])
    &&& (widths[1] > 0 ==> t.owner.len() <= widths[1])
    &&& forall|i: int| 0 <= i < t.children.len() ==> fits(#[trigger] t.children[i], depth + 1, widths)
}

/// Each line followed by a newline.
pub open spec fn unlines(ls: Seq<Seq<u8>>) -> Seq<u8>
    decreases ls.len(),
{
    if ls.len() == 0 {
        Seq::empty()
    } else {
        ls[0] + seq![NEWLINE] + unlines(ls.drop_first())
    }
}

/// The names that a list of dependencies stands for: each without the
/// completion marker in front.
pub open spec fn unmarked(deps: Seq<Seq<u8>>) -> Seq<Seq<u8>> {
    Seq::new(deps.len(), |i: int| bare_name(deps[i]))
}

/// Each comment as a comment line of the input grammar.
pub open spec fn md_comments(comment: Seq<Seq<u8>>) -> Seq<Seq<u8>> {
    Seq::new(comment.len(), |i: int| comment_mark() + seq![SPACE] + comment[i])
}

/// The header of a todo in the input grammar, with a completion marker for a
/// completed todo.
pub open spec fn md_header(t: TodoView) -> Seq<u8> {
    header_mark() + (if t.status == Status::Completed {
        seq![TILDE]
    } else {
        Seq::empty()
    }) + t.name
}

/// The owner line of a todo, if it has an owner.
pub open spec fn md_owner(t: TodoView) -> Seq<Seq<u8>> {
    if t.owner.len() > 0 {
        seq![owner_mark() + seq![SPACE] + t.owner]
    } else {
        Seq::empty()
    }
}

/// The dependency line of a todo, if it has dependencies: their names
/// without markers, a blank between each two.
pub open spec fn md_dependencies(t: TodoView) -> Seq<Seq<u8>> {
    if t.dependencies.len() > 0 {
        seq![dependency_mark() + seq![SPACE] + joined(unmarked(t.dependencies), seq![SPACE])]
    } else {
        Seq::empty()
    }
}

/// The definition of one todo in the input grammar, line by line: the
/// header; the owner, if any; the dependencies, if any; the comment lines;
/// and the lines that followed the definition. The root has no definition.
pub open spec fn md_lines(t: TodoView) -> Seq<Seq<u8>> {
    if t.name == root_name() {
        Seq::empty()
    } else {
        seq![md_header(t)] + md_owner(t) + md_dependencies(t) + md_comments(t.comment)
            + t.auxilaries
    }
}

/// The opening of a JSON object for `t`, indented by `indent`: its name and
/// status, its owner if the tree has an owner column, its first comment line
/// if the tree has a comment column and the todo a comment, and the opening
/// of the list of its dependencies.
pub open spec fn json_open(t: TodoView, indent: Seq<u8>, widths: Seq<usize>) -> Seq<u8> {
    indent + "{\n".spec_bytes() + indent + "  \"name\": \"".spec_bytes() + t.name
        + "\",\n".spec_bytes() + indent + "  \"status\": \"".spec_bytes() + t.status.label_spec()
        + "\",\n".spec_bytes() + (if widths[1] > 0 {
        indent + "  \"owner\": \"".spec_bytes() + t.owner + "\",\n".spec_bytes()
    } else {
        Seq::empty()
    }) + (if widths[2] > 0 && t.comment.len() > 0 {
        indent + "  \"comment\": \"".spec_bytes() + t.comment[0] + "\",\n".spec_bytes()
    } else {
        Seq::empty()
    }) + indent + "  \"dependencies\": [\n".spec_bytes()
}

/// The closing of a JSON object.
pub open spec fn json_close(indent: Seq<u8>) -> Seq<u8> {
    indent + "  ]\n".spec_bytes() + indent + "}\n".spec_bytes()
}

/// The indentation of a JSON object at `depth`.
pub open spec fn json_indent(depth: nat) -> Seq<u8> {
    repeated("    ".spec_bytes(), depth)
}

/// The tree below and including `t` in `format`.
///
/// As markdown: the definition of `t`, then its children. As JSON: an object
/// whose `dependencies` hold the children's objects, a comma line between
/// each two. As a table: the rows of `t`, then its children from first to
/// last; or, reversed, the children from last to first and then the rows
/// of `t`. Reversing changes tables only.
#[verifier::opaque]
pub open spec fn rendered(t: TodoView, f: Frame, format: Format, no_color: bool) -> Seq<u8>
    decreases t, t.children.len() + 1,
{
    match format {
        Format::Md => unlines(md_lines(t)) + rendered_children(t, f, format, no_color, 0),
        Format::Json => json_open(t, json_indent(f.connectors.len()), f.widths)
            + rendered_children(t, f, format, no_color, 0) + json_close(
            json_indent(f.connectors.len()),
        ),
        _ => if f.reverse {
            rendered_children_reversed(t, f, format, no_color, t.children.len() as int) + block(
                t,
                f,
                format,
                no_color,
            )
        } else {
            block(t, f, format, no_color) + rendered_children(t, f, format, no_color, 0)
        },
    }
}

/// The children of `t` from position `pos` on, first to last.
#[verifier::opaque]
pub open spec fn rendered_children(
    t: TodoView,
    f: Frame,
    format: Format,
    no_color: bool,
    pos: int,
) -> Seq<u8>
    decreases t, t.children.len() - pos,
{
    if pos < 0 || pos >= t.children.len() {
        Seq::empty()
    } else {
        (if pos > 0 && format == Format::Json {
            json_indent(f.connectors.len()) + "    ,\n".spec_bytes()
        } else {
            Seq::empty()
        }) + rendered(t.children[pos], f.child(pos + 1 == t.children.len()), format, no_color)
            + rendered_children(t, f, format, no_color, pos + 1)
    }
}

/// The first `n` children of `t`, last to first.
#[verifier::opaque]
pub open spec fn rendered_children_reversed(
    t: TodoView,
    f: Frame,
    format: Format,
    no_color: bool,
    n: int,
) -> Seq<u8>
    decreases t, n,
{
    if n <= 0 || n > t.children.len() {
        Seq::empty()
    } else {
        rendered(t.children[n - 1], f.child(n == t.children.len()), format, no_color)
            + rendered_children_reversed(t, f, format, no_color, n - 1)
    }
}

/// Laying lines out one after the other lays out their parts one after the
/// other.
pub proof fn lemma_unlines_add(a: Seq<Seq<u8>>, b: Seq<Seq<u8>>)
    ensures
        unlines(a + b) == unlines(a) + unlines(b),
    decreases a.len(),
{
    if a.len() == 0 {
        assert(a + b =~= b);
        assert(unlines(a) + unlines(b) =~= unlines(b));
    } else {
        assert((a + b).drop_first() =~= a.drop_first() + b);
        lemma_unlines_add(a.drop_first(), b);
        assert(a[0] + seq![NEWLINE] + (unlines(a.drop_first()) + unlines(b)) =~= (a[0]
            + seq![NEWLINE] + unlines(a.drop_first())) + unlines(b));
    }
}

/// A single line laid out is the line and a newline.
pub proof fn lemma_unlines_one(l: Seq<u8>)
    ensures
        unlines(seq![l]) == l + seq![NEWLINE],
{
    assert(seq![l].drop_first() =~= Seq::<Seq<u8>>::empty());
    assert(l + seq![NEWLINE] + unlines(Seq::<Seq<u8>>::empty()) =~= l + seq![NEWLINE]);
}

/// [`rendered`], spelled out.
pub proof fn lemma_rendered(t: TodoView, f: Frame, format: Format, no_color: bool)
    ensures
        rendered(t, f, format, no_color) == match format {
            Format::Md => unlines(md_lines(t)) + rendered_children(t, f, format, no_color, 0),
            Format::Json => json_open(t, json_indent(f.connectors.len()), f.widths)
                + rendered_children(t, f, format, no_color, 0) + json_close(
                json_indent(f.connectors.len()),
            ),
            _ => if f.reverse {
                rendered_children_reversed(t, f, format, no_color, t.children.len() as int)
                    + block(t, f, format, no_color)
            } else {
                block(t, f, format, no_color) + rendered_children(t, f, format, no_color, 0)
            },
        },
{
    reveal_with_fuel(rendered, 2);
    reveal_with_fuel(rendered_children, 2);
    reveal_with_fuel(rendered_children_reversed, 2);
}

/// [`rendered_children`], spelled out.
pub proof fn lemma_rendered_children(
    t: TodoView,
    f: Frame,
    format: Format,
    no_color: bool,
    pos: int,
)
    ensures
        rendered_children(t, f, format, no_color, pos) == if pos < 0 || pos >= t.children.len() {
            Seq::<u8>::empty()
        } else {
            (if pos > 0 && format == Format::Json {
                json_indent(f.connectors.len()) + "    ,\n".spec_bytes()
            } else {
                Seq::<u8>::empty()
            }) + rendered(t.children[pos], f.child(pos + 1 == t.children.len()), format, no_color)
                + rendered_children(t, f, format, no_color, pos + 1)
        },
{
    reveal_with_fuel(rendered, 2);
    reveal_with_fuel(rendered_children, 2);
    reveal_with_fuel(rendered_children_reversed, 2);
}

/// [`rendered_children_reversed`], spelled out.
pub proof fn lemma_rendered_children_reversed(
    t: TodoView,
    f: Frame,
    format: Format,
    no_color: bool,
    n: int,
)
    ensures
        rendered_children_reversed(t, f, format, no_color, n) == if n <= 0 || n
            > t.children.len() {
            Seq::<u8>::empty()
        } else {
            rendered(t.children[n - 1], f.child(n == t.children.len()), format, no_color)
                + rendered_children_reversed(t, f, format, no_color, n - 1)
        },
{
    reveal_with_fuel(rendered, 2);
    reveal_with_fuel(rendered_children, 2);
    reveal_with_fuel(rendered_children_reversed, 2);
}

} // verus!
