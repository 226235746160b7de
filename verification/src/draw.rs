//! The executable renderers. Each appends to a buffer of bytes exactly what
//! [`crate::render`] defines.
use crate::{Format, Status};
use crate::bytes::{append, append_repeated, append_zero_padded, digits, join, slice};
use crate::grammar::{
    comment_bytes, comment_mark, dependency_bytes, dependency_mark, header_bytes, header_mark,
    owner_bytes, owner_mark,
};
use crate::render::{
    blanks, block, branch, branches, closes, colour_on, comment_cell, comment_line, comment_lines,
    comment_row, connector, continuation, eol_of, fits, frame_of, json_close, json_indent,
    json_open, lemma_rendered, lemma_rendered_children, lemma_rendered_children_reversed,
    lemma_unlines_add, lemma_unlines_one, margin, md_comments, md_dependencies, md_header, md_lines,
    md_owner, name_cell, owner_cell, piece_len, rails, rendered, rendered_children,
    rendered_children_reversed, rule, shown_comment, table, unlines, unmarked, Frame,
};
use crate::text::{
    joined, lemma_add_assoc, lemma_decimal_len_u64, lemma_repeated_push, repeated, texts,
    zero_padded, NEWLINE, SLASH, SPACE, TILDE,
};
use crate::todo::{bare, bare_name, lemma_view, root_name, views, Todo};
use vstd::prelude::*;
use vstd::string::*;

verus! {

impl Todo {
    /// Writes what stands in front of a name in its row.
    pub fn fmt_connector(
        &self,
        out: &mut Vec<u8>,
        connectors: &Vec<bool>,
        space: &[u8],
        bol: &[u8],
        reverse: bool,
    )
        ensures
            final(out)@ == old(out)@ + connector(connectors@, space@, bol@, reverse),
    {
        append(out, bol);
        let mut pos: usize = 0;
        assert(out@ + branches(connectors@, space@, reverse, 0) =~= old(out)@ + connector(
            connectors@,
            space@,
            bol@,
            reverse,
        ));
        while pos < connectors.len()
            invariant
                pos <= connectors.len(),
                out@ + branches(connectors@, space@, reverse, pos as int) == old(out)@ + connector(
                    connectors@,
                    space@,
                    bol@,
                    reverse,
                ),
            decreases connectors.len() - pos,
        {
            let ghost before = out@;
            let inner = connectors.len() - pos > 1;
            if connectors[pos] {
                if inner {
                    append_repeated(out, space, 4);
                } else if reverse {
                    append(out, "┌──".as_bytes());
                    append(out, space);
                } else {
                    append(out, "└──".as_bytes());
                    append(out, space);
                }
            } else if inner {
                append(out, "│".as_bytes());
                append_repeated(out, space, 3);
            } else {
                append(out, "├──".as_bytes());
                append(out, space);
            }
            proof {
                let piece = branch(connectors@, space@, reverse, pos as int);
                assert(out@ =~= before + piece);
                assert(before + (piece + branches(connectors@, space@, reverse, pos as int + 1))
                    =~= out@ + branches(connectors@, space@, reverse, pos as int + 1));
            }
            pos = pos + 1;
        }
        assert(out@ + branches(connectors@, space@, reverse, pos as int) =~= out@);
    }

    /// Writes the start of a row that holds no name, up to the end of the
    /// name column.
    fn fmt_margin(
        &self,
        out: &mut Vec<u8>,
        connectors: &Vec<bool>,
        maxlens: &[usize; 3],
        space: &[u8],
        bol: &[u8],
        below: bool,
        reverse: bool,
    )
        requires
            4 * connectors@.len() <= maxlens@[0],
        ensures
            final(out)@ == old(out)@ + margin(
                self@,
                Frame { connectors: connectors@, widths: maxlens@, space: space@, bol: bol@, reverse },
                below,
            ),
    {
        let ghost f = Frame {
            connectors: connectors@,
            widths: maxlens@,
            space: space@,
            bol: bol@,
            reverse,
        };
        proof {
            lemma_view(*self);
        }
        let mut row: Vec<u8> = Vec::new();
        append(&mut row, bol);
        assert(row@ =~= bol@);
        let ghost head = row@;
        let mut pos: usize = 0;
        while pos < connectors.len()
            invariant
                pos <= connectors.len(),
                f.connectors == connectors@,
                f.space == space@,
                row@ + rails(f, below, pos as int) == head + rails(f, below, 0),
            decreases connectors.len() - pos,
        {
            let ghost before = row@;
            if connectors[pos] && !(below && connectors.len() - pos == 1) {
                append(&mut row, space);
            } else {
                append(&mut row, "│".as_bytes());
            }
            append_repeated(&mut row, space, 3);
            proof {
                let piece = row@.subrange(before.len() as int, row@.len() as int);
                assert(row@ =~= before + piece);
                assert(piece =~= (if f.connectors[pos as int] && !(below && pos + 1
                    == f.connectors.len()) {
                    f.space
                } else {
                    "│".spec_bytes()
                }) + repeated(f.space, 3));
                assert(before + (piece + rails(f, below, pos as int + 1)) =~= row@ + rails(
                    f,
                    below,
                    pos as int + 1,
                ));
            }
            pos = pos + 1;
        }
        assert(row@ == bol@ + rails(f, below, 0)) by {
            assert(row@ + rails(f, below, pos as int) =~= row@);
        }
        if self.children.len() == 0 || below {
            append(&mut row, space);
        } else {
            append(&mut row, "│".as_bytes());
        }
        let rest = maxlens[0] - connectors.len() * 4;
        if rest > 1 {
            append_repeated(&mut row, space, rest - 1);
        } else {
            assert(row@ =~= row@ + blanks(f.space, f.widths[0] - 1 - 4 * f.connectors.len()));
        }
        append(out, row.as_slice());
    }

    /// Writes the start of a row that holds no name: the continuation in
    /// front of a further comment row (`iscomment`), or else the rule that
    /// separates this todo's rows from the next.
    pub fn fmt_cont_comment_or_dash(
        &self,
        out: &mut Vec<u8>,
        connectors: &Vec<bool>,
        maxlens: &[usize; 3],
        space: &[u8],
        bol: &[u8],
        iscomment: bool,
        reverse: bool,
    )
        requires
            4 * connectors@.len() <= maxlens@[0],
        ensures
            final(out)@ == old(out)@ + (if iscomment {
                continuation(
                    self@,
                    Frame {
                        connectors: connectors@,
                        widths: maxlens@,
                        space: space@,
                        bol: bol@,
                        reverse,
                    },
                )
            } else {
                rule(
                    self@,
                    Frame {
                        connectors: connectors@,
                        widths: maxlens@,
                        space: space@,
                        bol: bol@,
                        reverse,
                    },
                )
            }),
    {
        let ghost f = Frame {
            connectors: connectors@,
            widths: maxlens@,
            space: space@,
            bol: bol@,
            reverse,
        };
        proof {
            lemma_view(*self);
        }
        let mut row: Vec<u8> = Vec::new();
        if iscomment {
            self.fmt_margin(&mut row, connectors, maxlens, space, bol, reverse, reverse);
            assert(row@ =~= margin(self@, f, reverse));
            append(&mut row, space);
            append(&mut row, "│".as_bytes());
            append(&mut row, space);
            append_repeated(&mut row, space, maxlens[1]);
            let ghost mid = row@;
            if maxlens[1] > 0 && maxlens[2] > 0 {
                let mut bar: Vec<u8> = Vec::new();
                append(&mut bar, space);
                append(&mut bar, "│".as_bytes());
                append(&mut bar, space);
                assert(bar@ =~= space@ + "│".spec_bytes() + space@);
                append(&mut row, bar.as_slice());
            } else {
                assert(row@ =~= mid + Seq::<u8>::empty());
            }
        } else {
            let mut end = self.children.len() == 0;
            let mut k: usize = 0;
            while k < connectors.len()
                invariant
                    k <= connectors.len(),
                    end == (self.children@.len() == 0 && forall|i: int|
                        0 <= i < k ==> connectors@[i]),
                decreases connectors.len() - k,
            {
                if !connectors[k] {
                    end = false;
                }
                k = k + 1;
            }
            assert(end == closes(self@, f));
            self.fmt_margin(&mut row, connectors, maxlens, space, bol, false, reverse);
            assert(row@ =~= margin(self@, f, false));
            append(&mut row, space);
            if !end {
                append(&mut row, "├─".as_bytes());
            } else if reverse {
                append(&mut row, "┌─".as_bytes());
            } else {
                append(&mut row, "└─".as_bytes());
            }
            append_repeated(&mut row, "─".as_bytes(), maxlens[1]);
            let ghost mid = row@;
            if maxlens[1] > 0 && maxlens[2] > 0 {
                if !end {
                    append(&mut row, "─┼─".as_bytes());
                } else if reverse {
                    append(&mut row, "─┬─".as_bytes());
                } else {
                    append(&mut row, "─┴─".as_bytes());
                }
            } else {
                assert(row@ =~= mid + Seq::<u8>::empty());
            }
            append_repeated(&mut row, "─".as_bytes(), maxlens[2]);
            if !end {
                append(&mut row, "─┤".as_bytes());
            } else if reverse {
                append(&mut row, "─┐".as_bytes());
            } else {
                append(&mut row, "─┘".as_bytes());
            }
        }
        append(out, row.as_slice());
    }

    /// Writes one row of comment line `idx`, from the comment cell on: the
    /// piece of the line that starts at byte `start`.
    fn fmt_comment_row(
        &self,
        out: &mut Vec<u8>,
        connectors: &Vec<bool>,
        maxlens: &[usize; 3],
        space: &[u8],
        bol: &[u8],
        eol: &[u8],
        reverse: bool,
        idx: usize,
        start: usize,
    ) -> (len: usize)
        requires
            idx < shown_comment(self@).len(),
            start <= shown_comment(self@)[idx as int].len(),
        ensures
            len == piece_len(
                self@,
                Frame { connectors: connectors@, widths: maxlens@, space: space@, bol: bol@, reverse },
                idx as int,
                start as int,
            ),
            len >= 1 || start == shown_comment(self@)[idx as int].len(),
            final(out)@ == old(out)@ + comment_row(
                self@,
                Frame { connectors: connectors@, widths: maxlens@, space: space@, bol: bol@, reverse },
                eol@,
                idx as int,
                start as int,
            ),
    {
        let ghost f = Frame {
            connectors: connectors@,
            widths: maxlens@,
            space: space@,
            bol: bol@,
            reverse,
        };
        let ghost t = self@;
        proof {
            lemma_view(*self);
        }
        let none: Vec<u8> = Vec::new();
        let line: &Vec<u8> = if self.comment.len() == 0 {
            &none
        } else {
            &self.comment[idx]
        };
        assert(line@ == shown_comment(t)[idx as int]);
        let count: usize = if self.comment.len() == 0 {
            1
        } else {
            self.comment.len()
        };
        assert(count == shown_comment(t).len());
        proof {
            lemma_decimal_len_u64(count as nat);
        }
        let dgt = digits(count).len();
        let numw: usize = if self.comment.len() <= 1 {
            0
        } else {
            dgt + 2
        };
        let width: usize = if maxlens[2] > numw {
            maxlens[2] - numw
        } else {
            1
        };
        let len: usize = if line.len() - start < width {
            line.len() - start
        } else {
            width
        };
        let mut row: Vec<u8> = Vec::new();
        if numw == 0 {
        } else if start == 0 {
            append_zero_padded(&mut row, idx + 1, dgt);
            append(&mut row, ".".as_bytes());
            append(&mut row, space);
            assert(row@ =~= zero_padded((idx + 1) as nat, dgt as nat) + ".".spec_bytes() + space@);
        } else {
            append_repeated(&mut row, space, numw);
            assert(row@ =~= repeated(space@, numw as nat));
        }
        let piece = slice(line.as_slice(), start, start + len);
        append(&mut row, piece.as_slice());
        append_repeated(&mut row, space, width - len);
        append(&mut row, space);
        append(&mut row, "│".as_bytes());
        append(&mut row, eol);
        append(out, row.as_slice());
        len
    }

    /// Writes the rows of comment line `idx`: the line cut into pieces as
    /// wide as the comment column allows, one piece per row.
    #[verifier::rlimit(30)]
    fn fmt_comment_line(
        &self,
        out: &mut Vec<u8>,
        connectors: &Vec<bool>,
        maxlens: &[usize; 3],
        space: &[u8],
        bol: &[u8],
        eol: &[u8],
        reverse: bool,
        idx: usize,
    )
        requires
            4 * connectors@.len() <= maxlens@[0],
            idx < shown_comment(self@).len(),
        ensures
            final(out)@ == old(out)@ + comment_line(
                self@,
                Frame { connectors: connectors@, widths: maxlens@, space: space@, bol: bol@, reverse },
                eol@,
                idx as int,
                0,
            ),
    {
        let ghost f = Frame {
            connectors: connectors@,
            widths: maxlens@,
            space: space@,
            bol: bol@,
            reverse,
        };
        let ghost t = self@;
        proof {
            lemma_view(*self);
        }
        let total: usize = if self.comment.len() == 0 {
            0
        } else {
            self.comment[idx].len()
        };
        assert(total == shown_comment(t)[idx as int].len());
        let mut rows: Vec<u8> = Vec::new();
        let mut start: usize = 0;
        assert(rows@ + comment_line(t, f, eol@, idx as int, 0) =~= comment_line(
            t,
            f,
            eol@,
            idx as int,
            0,
        ));
        loop
            invariant_except_break
                rows@ + comment_line(t, f, eol@, idx as int, start as int) == comment_line(
                    t,
                    f,
                    eol@,
                    idx as int,
                    0,
                ),
            invariant
                start <= total,
                total == shown_comment(t)[idx as int].len(),
                idx < shown_comment(t).len(),
                t == self@,
                f == (Frame {
                    connectors: connectors@,
                    widths: maxlens@,
                    space: space@,
                    bol: bol@,
                    reverse,
                }),
                4 * connectors@.len() <= maxlens@[0],
            ensures
                rows@ == comment_line(t, f, eol@, idx as int, 0),
            decreases total - start,
        {
            let ghost before = rows@;
            let len = self.fmt_comment_row(
                &mut rows,
                connectors,
                maxlens,
                space,
                bol,
                eol,
                reverse,
                idx,
                start,
            );
            if len == 0 || total - start <= len {
                break ;
            }
            self.fmt_cont_comment_or_dash(&mut rows, connectors, maxlens, space, bol, true, reverse);
            proof {
                let rest = comment_line(t, f, eol@, idx as int, start as int + len as int);
                assert(before + (comment_row(t, f, eol@, idx as int, start as int) + continuation(
                    t,
                    f,
                ) + rest) =~= rows@ + rest);
            }
            start = start + len;
        }
        append(out, rows.as_slice());
    }

    /// Writes the comment cell and all that follows it: the rows of the
    /// comment and, unless the table is reversed, the rule.
    pub fn fmt_comment(
        &self,
        out: &mut Vec<u8>,
        connectors: &Vec<bool>,
        maxlens: &[usize; 3],
        space: &[u8],
        bol: &[u8],
        eol: &[u8],
        reverse: bool,
    )
        requires
            4 * connectors@.len() <= maxlens@[0],
        ensures
            final(out)@ == old(out)@ + comment_cell(
                self@,
                Frame { connectors: connectors@, widths: maxlens@, space: space@, bol: bol@, reverse },
                eol@,
            ),
    {
        let ghost f = Frame {
            connectors: connectors@,
            widths: maxlens@,
            space: space@,
            bol: bol@,
            reverse,
        };
        let ghost t = self@;
        proof {
            lemma_view(*self);
        }
        let count: usize = if self.comment.len() == 0 {
            1
        } else {
            self.comment.len()
        };
        let mut cell: Vec<u8> = Vec::new();
        let mut idx: usize = 0;
        assert(cell@ + comment_lines(t, f, eol@, 0) =~= comment_lines(t, f, eol@, 0));
        while idx < count
            invariant
                idx <= count,
                count == shown_comment(t).len(),
                t == self@,
                f == (Frame {
                    connectors: connectors@,
                    widths: maxlens@,
                    space: space@,
                    bol: bol@,
                    reverse,
                }),
                4 * connectors@.len() <= maxlens@[0],
                cell@ + comment_lines(t, f, eol@, idx as int) == comment_lines(t, f, eol@, 0),
            decreases count - idx,
        {
            let ghost before = cell@;
            if idx > 0 {
                self.fmt_cont_comment_or_dash(
                    &mut cell,
                    connectors,
                    maxlens,
                    space,
                    bol,
                    true,
                    reverse,
                );
            }
            let ghost lead = if idx > 0 {
                continuation(t, f)
            } else {
                Seq::<u8>::empty()
            };
            assert(cell@ =~= before + lead);
            self.fmt_comment_line(&mut cell, connectors, maxlens, space, bol, eol, reverse, idx);
            proof {
                let rest = comment_lines(t, f, eol@, idx as int + 1);
                assert(before + (lead + comment_line(t, f, eol@, idx as int, 0) + rest) =~= cell@
                    + rest);
            }
            idx = idx + 1;
        }
        assert(cell@ == comment_lines(t, f, eol@, 0)) by {
            assert(cell@ + comment_lines(t, f, eol@, idx as int) =~= cell@);
        }
        if !reverse {
            self.fmt_cont_comment_or_dash(&mut cell, connectors, maxlens, space, bol, false, reverse);
        } else {
            assert(cell@ =~= comment_lines(t, f, eol@, 0) + Seq::<u8>::empty());
        }
        append(out, cell.as_slice());
    }

    /// Writes what follows the name in its row, and the rows after it: the
    /// owner and comment cells, or just the end of the row when the table has
    /// neither column.
    pub fn fmt_table(
        &self,
        out: &mut Vec<u8>,
        connectors: &Vec<bool>,
        maxlens: &[usize; 3],
        space: &[u8],
        bol: &[u8],
        eol: &[u8],
        reverse: bool,
    )
        requires
            maxlens@[1] + maxlens@[2] > 0 ==> 4 * connectors@.len() + self@.name.len()
                <= maxlens@[0],
            maxlens@[1] > 0 ==> self@.owner.len() <= maxlens@[1],
        ensures
            final(out)@ == old(out)@ + table(
                self@,
                Frame { connectors: connectors@, widths: maxlens@, space: space@, bol: bol@, reverse },
                eol@,
            ),
    {
        let ghost f = Frame {
            connectors: connectors@,
            widths: maxlens@,
            space: space@,
            bol: bol@,
            reverse,
        };
        let ghost t = self@;
        proof {
            lemma_view(*self);
        }
        if maxlens[1] == 0 && maxlens[2] == 0 {
            append(out, eol);
            return ;
        }
        let mut rows: Vec<u8> = Vec::new();
        append_repeated(&mut rows, space, maxlens[0] - connectors.len() * 4 - self.name.len());
        assert(rows@ =~= blanks(f.space, f.widths[0] - 4 * f.connectors.len() - t.name.len()));
        append(&mut rows, space);
        append(&mut rows, "│".as_bytes());
        append(&mut rows, space);
        let ghost lead = rows@;
        if maxlens[1] > 0 {
            let mut cell: Vec<u8> = Vec::new();
            append(&mut cell, self.owner.as_slice());
            assert(cell@ =~= t.owner);
            append_repeated(&mut cell, space, maxlens[1] - self.owner.len());
            append(&mut cell, space);
            proof {
                lemma_repeated_push(space@, (maxlens[1] - self.owner.len()) as nat);
                assert(cell@ =~= t.owner + blanks(f.space, 1 + f.widths[1] - t.owner.len()));
            }
            append(&mut cell, "│".as_bytes());
            let ghost mid = cell@;
            if maxlens[2] > 0 {
                append(&mut cell, space);
            } else {
                assert(cell@ =~= mid + Seq::<u8>::empty());
            }
            assert(cell@ == owner_cell(t, f));
            append(&mut rows, cell.as_slice());
        } else {
            assert(rows@ =~= lead + owner_cell(t, f));
        }
        if maxlens[2] > 0 {
            self.fmt_comment(&mut rows, connectors, maxlens, space, bol, eol, reverse);
        } else if reverse {
            append(&mut rows, eol);
        } else {
            let mut tail: Vec<u8> = Vec::new();
            append(&mut tail, eol);
            assert(tail@ =~= eol@);
            self.fmt_cont_comment_or_dash(&mut tail, connectors, maxlens, space, bol, false, reverse);
            append(&mut rows, tail.as_slice());
        }
        let ghost body = rows@;
        if !reverse {
            append(&mut rows, eol);
        } else {
            assert(rows@ =~= body + Seq::<u8>::empty());
        }
        append(out, rows.as_slice());
    }

    /// Writes the name as a table shows it, in the colour of its status
    /// unless colours are off.
    fn fmt_name(&self, out: &mut Vec<u8>, format: &Format, no_color: bool)
        ensures
            final(out)@ == old(out)@ + name_cell(self@, *format, no_color),
    {
        proof {
            lemma_view(*self);
        }
        if no_color {
            append(out, self.name.as_slice());
            return ;
        }
        let mut cell: Vec<u8> = Vec::new();
        match (self.status, format) {
            (Status::Pending, _) => {},
            (Status::Completed, Format::Html) => append(
                &mut cell,
                "<span style='color:blue'>".as_bytes(),
            ),
            (Status::Actionable, Format::Html) => append(
                &mut cell,
                "<span style='color:red'>".as_bytes(),
            ),
            (Status::Completed, _) => append(&mut cell, "\x1b[34m".as_bytes()),
            (Status::Actionable, _) => append(&mut cell, "\x1b[31m".as_bytes()),
        }
        assert(cell@ =~= colour_on(self.status, *format));
        append(&mut cell, self.name.as_slice());
        match (self.status, format) {
            (Status::Pending, _) => {
                assert(cell@ =~= colour_on(self.status, *format) + self.name@ + Seq::<u8>::empty());
            },
            (_, Format::Html) => append(&mut cell, "</span>".as_bytes()),
            _ => append(&mut cell, "\x1b(B\x1b[m".as_bytes()),
        }
        append(out, cell.as_slice());
    }

    /// Writes the rows of this todo in a table.
    fn fmt_block(
        &self,
        out: &mut Vec<u8>,
        connectors: &Vec<bool>,
        maxlens: &[usize; 3],
        format: &Format,
        no_color: bool,
        reverse: bool,
    )
        requires
            maxlens@[1] + maxlens@[2] > 0 ==> 4 * connectors@.len() + self@.name.len()
                <= maxlens@[0],
            maxlens@[1] > 0 ==> self@.owner.len() <= maxlens@[1],
        ensures
            final(out)@ == old(out)@ + block(
                self@,
                frame_of(*format, connectors@, maxlens@, reverse),
                *format,
                no_color,
            ),
    {
        let ghost f = frame_of(*format, connectors@, maxlens@, reverse);
        let html = match format {
            Format::Html => true,
            _ => false,
        };
        let space: &[u8] = if html {
            "&nbsp;".as_bytes()
        } else {
            " ".as_bytes()
        };
        let none: [u8; 0] = [];
        assert(none@ =~= Seq::<u8>::empty());
        let bol: &[u8] = if html {
            "<p style='font-family: monospace; font-size: 16px; margin: 0px; line-height: 16px'>".as_bytes()
        } else {
            none.as_slice()
        };
        let eol: &[u8] = if html {
            "</p>\n".as_bytes()
        } else {
            "\n".as_bytes()
        };
        assert(f == (Frame {
            connectors: connectors@,
            widths: maxlens@,
            space: space@,
            bol: bol@,
            reverse,
        }));
        assert(eol@ == eol_of(*format));
        let mut rows: Vec<u8> = Vec::new();
        if reverse && !(maxlens[1] == 0 && maxlens[2] == 0) {
            self.fmt_cont_comment_or_dash(&mut rows, connectors, maxlens, space, bol, false, reverse);
            assert(rows@ =~= rule(self@, f));
            append(&mut rows, eol);
        }
        let ghost lead = rows@;
        self.fmt_connector(&mut rows, connectors, space, bol, reverse);
        self.fmt_name(&mut rows, format, no_color);
        self.fmt_table(&mut rows, connectors, maxlens, space, bol, eol, reverse);
        append(out, rows.as_slice());
    }

    /// Writes the definition of this todo in the input grammar.
    fn fmt_definition(&self, out: &mut Vec<u8>)
        ensures
            final(out)@ == old(out)@ + unlines(md_lines(self@)),
    {
        let ghost t = self@;
        proof {
            lemma_view(*self);
        }
        if self.name.len() == 1 && self.name[0] == SLASH {
            assert(t.name =~= root_name());
            assert(md_lines(t) =~= Seq::<Seq<u8>>::empty());
            assert(out@ =~= old(out)@ + unlines(md_lines(t)));
            return ;
        }
        assert(t.name != root_name());
        let mut text: Vec<u8> = Vec::new();
        // the header
        let mut line: Vec<u8> = Vec::new();
        append(&mut line, header_bytes().as_slice());
        assert(line@ =~= header_mark());
        match self.status {
            Status::Completed => {
                line.push(TILDE);
                assert(line@ =~= header_mark() + seq![TILDE]);
            },
            _ => {
                assert(line@ =~= header_mark() + Seq::<u8>::empty());
            },
        }
        append(&mut line, self.name.as_slice());
        line.push(NEWLINE);
        append(&mut text, line.as_slice());
        proof {
            lemma_unlines_one(md_header(t));
            assert(text@ =~= unlines(seq![md_header(t)]));
        }
        // the owner
        if self.owner.len() > 0 {
            let mut line: Vec<u8> = Vec::new();
            append(&mut line, owner_bytes().as_slice());
            line.push(SPACE);
            append(&mut line, self.owner.as_slice());
            line.push(NEWLINE);
            proof {
                lemma_unlines_one(owner_mark() + seq![SPACE] + t.owner);
                assert(line@ =~= unlines(md_owner(t)));
            }
            append(&mut text, line.as_slice());
        } else {
            assert(text@ =~= unlines(seq![md_header(t)]) + unlines(md_owner(t)));
        }
        proof {
            lemma_unlines_add(seq![md_header(t)], md_owner(t));
        }
        assert(text@ == unlines(seq![md_header(t)] + md_owner(t)));
        // the dependencies
        if self.dependencies.len() > 0 {
            let mut names: Vec<Vec<u8>> = Vec::new();
            let mut i: usize = 0;
            while i < self.dependencies.len()
                invariant
                    i <= self.dependencies.len(),
                    texts(names@) == unmarked(texts(self.dependencies@)).take(i as int),
                decreases self.dependencies.len() - i,
            {
                let ghost before = texts(names@);
                names.push(bare(self.dependencies[i].as_slice()));
                assert(texts(names@) =~= before.push(bare_name(self.dependencies@[i as int]@)));
                assert(unmarked(texts(self.dependencies@)).take(i as int + 1) =~= unmarked(
                    texts(self.dependencies@),
                ).take(i as int).push(bare_name(self.dependencies@[i as int]@)));
                i = i + 1;
            }
            assert(texts(names@) =~= unmarked(t.dependencies));
            let blank: [u8; 1] = [SPACE];
            assert(blank@ =~= seq![SPACE]);
            let list = join(&names, blank.as_slice());
            let mut line: Vec<u8> = Vec::new();
            append(&mut line, dependency_bytes().as_slice());
            line.push(SPACE);
            append(&mut line, list.as_slice());
            line.push(NEWLINE);
            proof {
                lemma_unlines_one(
                    dependency_mark() + seq![SPACE] + joined(unmarked(t.dependencies), seq![SPACE]),
                );
                assert(line@ =~= unlines(md_dependencies(t)));
            }
            append(&mut text, line.as_slice());
        } else {
            assert(text@ =~= unlines(seq![md_header(t)] + md_owner(t)) + unlines(
                md_dependencies(t),
            ));
        }
        proof {
            lemma_unlines_add(seq![md_header(t)] + md_owner(t), md_dependencies(t));
        }
        assert(text@ == unlines(seq![md_header(t)] + md_owner(t) + md_dependencies(t)));
        // the comment
        let ghost head = seq![md_header(t)] + md_owner(t) + md_dependencies(t);
        let mut i: usize = 0;
        assert(head + md_comments(t.comment).take(0) =~= head);
        while i < self.comment.len()
            invariant
                i <= self.comment.len(),
                t.comment == texts(self.comment@),
                text@ == unlines(head + md_comments(t.comment).take(i as int)),
            decreases self.comment.len() - i,
        {
            let mut line: Vec<u8> = Vec::new();
            append(&mut line, comment_bytes().as_slice());
            line.push(SPACE);
            append(&mut line, self.comment[i].as_slice());
            line.push(NEWLINE);
            proof {
                let l = comment_mark() + seq![SPACE] + t.comment[i as int];
                lemma_unlines_one(l);
                assert(line@ =~= unlines(seq![l]));
                lemma_unlines_add(head + md_comments(t.comment).take(i as int), seq![l]);
                assert(head + md_comments(t.comment).take(i as int) + seq![l] =~= head
                    + md_comments(t.comment).take(i as int + 1));
            }
            append(&mut text, line.as_slice());
            i = i + 1;
        }
        assert(md_comments(t.comment).take(i as int) =~= md_comments(t.comment));
        // the lines that followed
        let ghost head = seq![md_header(t)] + md_owner(t) + md_dependencies(t) + md_comments(
            t.comment,
        );
        let mut i: usize = 0;
        assert(head + t.auxilaries.take(0) =~= head);
        while i < self.auxilaries.len()
            invariant
                i <= self.auxilaries.len(),
                t.auxilaries == texts(self.auxilaries@),
                text@ == unlines(head + t.auxilaries.take(i as int)),
            decreases self.auxilaries.len() - i,
        {
            let mut line: Vec<u8> = Vec::new();
            append(&mut line, self.auxilaries[i].as_slice());
            line.push(NEWLINE);
            proof {
                let l = t.auxilaries[i as int];
                lemma_unlines_one(l);
                assert(line@ =~= unlines(seq![l]));
                lemma_unlines_add(head + t.auxilaries.take(i as int), seq![l]);
                assert(head + t.auxilaries.take(i as int) + seq![l] =~= head + t.auxilaries.take(
                    i as int + 1,
                ));
            }
            append(&mut text, line.as_slice());
            i = i + 1;
        }
        assert(t.auxilaries.take(i as int) =~= t.auxilaries);
        append(out, text.as_slice());
    }

    /// Writes the opening of this todo's JSON object, indented for `depth`.
    fn fmt_json_open(&self, out: &mut Vec<u8>, depth: usize, maxlens: &[usize; 3])
        ensures
            final(out)@ == old(out)@ + json_open(self@, json_indent(depth as nat), maxlens@),
    {
        let ghost t = self@;
        proof {
            lemma_view(*self);
        }
        let mut indent: Vec<u8> = Vec::new();
        append_repeated(&mut indent, "    ".as_bytes(), depth);
        assert(indent@ =~= json_indent(depth as nat));
        let label = self.status.label();
        let mut text: Vec<u8> = Vec::new();
        append(&mut text, indent.as_slice());
        assert(text@ =~= indent@);
        append(&mut text, "{\n".as_bytes());
        append(&mut text, indent.as_slice());
        append(&mut text, "  \"name\": \"".as_bytes());
        append(&mut text, self.name.as_slice());
        append(&mut text, "\",\n".as_bytes());
        append(&mut text, indent.as_slice());
        append(&mut text, "  \"status\": \"".as_bytes());
        append(&mut text, label.as_slice());
        append(&mut text, "\",\n".as_bytes());
        let ghost mid = text@;
        if maxlens[1] > 0 {
            let mut part: Vec<u8> = Vec::new();
            append(&mut part, indent.as_slice());
            assert(part@ =~= indent@);
            append(&mut part, "  \"owner\": \"".as_bytes());
            append(&mut part, self.owner.as_slice());
            append(&mut part, "\",\n".as_bytes());
            append(&mut text, part.as_slice());
        } else {
            assert(text@ =~= mid + Seq::<u8>::empty());
        }
        let ghost mid = text@;
        if maxlens[2] > 0 && self.comment.len() > 0 {
            let mut part: Vec<u8> = Vec::new();
            append(&mut part, indent.as_slice());
            assert(part@ =~= indent@);
            append(&mut part, "  \"comment\": \"".as_bytes());
            append(&mut part, self.comment[0].as_slice());
            append(&mut part, "\",\n".as_bytes());
            append(&mut text, part.as_slice());
        } else {
            assert(text@ =~= mid + Seq::<u8>::empty());
        }
        append(&mut text, indent.as_slice());
        append(&mut text, "  \"dependencies\": [\n".as_bytes());
        append(out, text.as_slice());
    }

    /// Writes the closing of a JSON object, indented for `depth`.
    fn fmt_json_close(out: &mut Vec<u8>, depth: usize)
        ensures
            final(out)@ == old(out)@ + json_close(json_indent(depth as nat)),
    {
        let mut indent: Vec<u8> = Vec::new();
        append_repeated(&mut indent, "    ".as_bytes(), depth);
        assert(indent@ =~= json_indent(depth as nat));
        let mut text: Vec<u8> = Vec::new();
        append(&mut text, indent.as_slice());
        assert(text@ =~= indent@);
        append(&mut text, "  ]\n".as_bytes());
        append(&mut text, indent.as_slice());
        append(&mut text, "}\n".as_bytes());
        append(out, text.as_slice());
    }

    /// Writes the tree below and including this todo in `format`.
    ///
    /// `connectors` holds one flag per ancestor and one for this todo,
    /// outermost first: whether that todo is the last child of its parent. It
    /// is empty for the root. For a table, `maxlens` must hold columns wide
    /// enough for every todo of the tree.
    pub fn fmt_tree(
        &self,
        out: &mut Vec<u8>,
        connectors: &mut Vec<bool>,
        maxlens: &[usize; 3],
        format: &Format,
        no_color: bool,
        reverse: bool,
    )
        requires
            (*format == Format::Term || *format == Format::Html) ==> fits(
                self@,
                old(connectors)@.len(),
                maxlens@,
            ),
        ensures
            final(out)@ == old(out)@ + rendered(
                self@,
                frame_of(*format, old(connectors)@, maxlens@, reverse),
                *format,
                no_color,
            ),
            final(connectors)@ == old(connectors)@,
        decreases self, 1nat,
    {
        proof {
            lemma_rendered(
                self@,
                frame_of(*format, connectors@, maxlens@, reverse),
                *format,
                no_color,
            );
        }
        let ghost f = frame_of(*format, connectors@, maxlens@, reverse);
        let ghost t = self@;
        let ghost start = out@;
        match format {
            Format::Md => {
                self.fmt_definition(out);
                self.fmt_children(out, connectors, maxlens, format, no_color, reverse);
                proof {
                    lemma_add_assoc(
                        start,
                        unlines(md_lines(t)),
                        rendered_children(t, f, Format::Md, no_color, 0),
                    );
                }
            },
            Format::Json => {
                self.fmt_json_open(out, connectors.len(), maxlens);
                self.fmt_children(out, connectors, maxlens, format, no_color, reverse);
                Self::fmt_json_close(out, connectors.len());
                proof {
                    let open = json_open(t, json_indent(f.connectors.len()), f.widths);
                    let kids = rendered_children(t, f, Format::Json, no_color, 0);
                    let close = json_close(json_indent(f.connectors.len()));
                    lemma_add_assoc(start, open, kids);
                    lemma_add_assoc(start, open + kids, close);
                }
            },
            _ => {
                if reverse {
                    self.fmt_children_reversed(
                        out,
                        connectors,
                        maxlens,
                        format,
                        no_color,
                        reverse,
                    );
                    self.fmt_block(out, connectors, maxlens, format, no_color, reverse);
                    proof {
                        lemma_add_assoc(
                            start,
                            rendered_children_reversed(
                                t,
                                f,
                                *format,
                                no_color,
                                t.children.len() as int,
                            ),
                            block(t, f, *format, no_color),
                        );
                    }
                } else {
                    self.fmt_block(out, connectors, maxlens, format, no_color, reverse);
                    self.fmt_children(out, connectors, maxlens, format, no_color, reverse);
                    proof {
                        lemma_add_assoc(
                            start,
                            block(t, f, *format, no_color),
                            rendered_children(t, f, *format, no_color, 0),
                        );
                    }
                }
            },
        }
    }

    /// Writes the children of this todo, first to last.
    #[verifier::rlimit(40)]
    fn fmt_children(
        &self,
        out: &mut Vec<u8>,
        connectors: &mut Vec<bool>,
        maxlens: &[usize; 3],
        format: &Format,
        no_color: bool,
        reverse: bool,
    )
        requires
            (*format == Format::Term || *format == Format::Html) ==> fits(
                self@,
                old(connectors)@.len(),
                maxlens@,
            ),
        ensures
            final(out)@ == old(out)@ + rendered_children(
                self@,
                frame_of(*format, old(connectors)@, maxlens@, reverse),
                *format,
                no_color,
                0,
            ),
            final(connectors)@ == old(connectors)@,
        decreases self, 0nat,
    {
        let ghost t = self@;
        let ghost f = frame_of(*format, connectors@, maxlens@, reverse);
        proof {
            lemma_view(*self);
        }
        let json = match format {
            Format::Json => true,
            _ => false,
        };
        let mut pos: usize = 0;
        assert((*format == Format::Term || *format == Format::Html) ==> forall|i: int|
            0 <= i < t.children.len() ==> fits(
                #[trigger] t.children[i],
                connectors@.len() + 1,
                maxlens@,
            ));
        while pos < self.children.len()
            invariant
                pos <= self.children.len(),
                t == self@,
                t.children == views(self.children@),
                connectors@ == old(connectors)@,
                f == frame_of(*format, connectors@, maxlens@, reverse),
                json == (*format == Format::Json),
                (*format == Format::Term || *format == Format::Html) ==> forall|i: int|
                    0 <= i < t.children.len() ==> fits(
                        #[trigger] t.children[i],
                        connectors@.len() + 1,
                        maxlens@,
                    ),
                out@ + rendered_children(t, f, *format, no_color, pos as int) == old(out)@
                    + rendered_children(t, f, *format, no_color, 0),
            decreases self.children.len() - pos,
        {
            let ghost before = out@;
            if pos > 0 && json {
                let mut line: Vec<u8> = Vec::new();
                append_repeated(&mut line, "    ".as_bytes(), connectors.len());
                assert(line@ =~= json_indent(f.connectors.len()));
                append(&mut line, "    ,\n".as_bytes());
                append(out, line.as_slice());
            }
            let ghost lead = if pos > 0 && json {
                json_indent(f.connectors.len()) + "    ,\n".spec_bytes()
            } else {
                Seq::<u8>::empty()
            };
            assert(out@ =~= before + lead);
            let last = self.children.len() - pos == 1;
            connectors.push(last);
            assert(frame_of(*format, connectors@, maxlens@, reverse) == f.child(last));
            assert(self.children@[pos as int]@ == t.children[pos as int]);
            self.children[pos].fmt_tree(out, connectors, maxlens, format, no_color, reverse);
            connectors.pop();
            assert(connectors@ =~= old(connectors)@);
            proof {
                lemma_rendered_children(t, f, *format, no_color, pos as int);
                let rest = rendered_children(t, f, *format, no_color, pos as int + 1);
                let child = rendered(t.children[pos as int], f.child(last), *format, no_color);
                lemma_add_assoc(before, lead, child);
                lemma_add_assoc(before, lead + child, rest);
            }
            pos = pos + 1;
        }
        proof {
            lemma_rendered_children(t, f, *format, no_color, pos as int);
            assert(out@ + rendered_children(t, f, *format, no_color, pos as int) =~= out@);
        }
    }

    /// Writes the children of this todo, last to first.
    #[verifier::rlimit(40)]
    fn fmt_children_reversed(
        &self,
        out: &mut Vec<u8>,
        connectors: &mut Vec<bool>,
        maxlens: &[usize; 3],
        format: &Format,
        no_color: bool,
        reverse: bool,
    )
        requires
            (*format == Format::Term || *format == Format::Html) ==> fits(
                self@,
                old(connectors)@.len(),
                maxlens@,
            ),
        ensures
            final(out)@ == old(out)@ + rendered_children_reversed(
                self@,
                frame_of(*format, old(connectors)@, maxlens@, reverse),
                *format,
                no_color,
                self@.children.len() as int,
            ),
            final(connectors)@ == old(connectors)@,
        decreases self, 0nat,
    {
        let ghost t = self@;
        let ghost f = frame_of(*format, connectors@, maxlens@, reverse);
        proof {
            lemma_view(*self);
        }
        let mut n: usize = self.children.len();
        assert((*format == Format::Term || *format == Format::Html) ==> forall|i: int|
            0 <= i < t.children.len() ==> fits(
                #[trigger] t.children[i],
                connectors@.len() + 1,
                maxlens@,
            ));
        while n > 0
            invariant
                n <= self.children.len(),
                t == self@,
                t.children == views(self.children@),
                connectors@ == old(connectors)@,
                f == frame_of(*format, connectors@, maxlens@, reverse),
                (*format == Format::Term || *format == Format::Html) ==> forall|i: int|
                    0 <= i < t.children.len() ==> fits(
                        #[trigger] t.children[i],
                        connectors@.len() + 1,
                        maxlens@,
                    ),
                out@ + rendered_children_reversed(t, f, *format, no_color, n as int) == old(
                    out,
                )@ + rendered_children_reversed(
                    t,
                    f,
                    *format,
                    no_color,
                    t.children.len() as int,
                ),
            decreases n,
        {
            let ghost before = out@;
            let last = n == self.children.len();
            connectors.push(last);
            assert(frame_of(*format, connectors@, maxlens@, reverse) == f.child(last));
            assert(self.children@[n - 1]@ == t.children[n - 1]);
            self.children[n - 1].fmt_tree(out, connectors, maxlens, format, no_color, reverse);
            connectors.pop();
            assert(connectors@ =~= old(connectors)@);
            proof {
                lemma_rendered_children_reversed(t, f, *format, no_color, n as int);
                let rest = rendered_children_reversed(t, f, *format, no_color, n as int - 1);
                let child = rendered(t.children[n - 1], f.child(last), *format, no_color);
                lemma_add_assoc(before, child, rest);
            }
            n = n - 1;
        }
        proof {
            lemma_rendered_children_reversed(t, f, *format, no_color, 0);
            assert(out@ + rendered_children_reversed(t, f, *format, no_color, 0) =~= out@);
        }
    }
}

} // verus!
