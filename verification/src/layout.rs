//! The widths of the three columns of a table: how wide the names, owners
//! and comments of a tree are, and what is left for comments once names and
//! owners have their room.
use crate::{TodoError, TodoErrorView};
use crate::bytes::slice;
use crate::render::fits;
use crate::text::{texts, SLASH};
use crate::todo::{lemma_view, root_name, views, Todo, TodoView};
use vstd::prelude::*;
use vstd::string::*;

verus! {

/// The columns taken up by borders and blanks around the name and owner
/// columns.
pub const BORDER: usize = 8;

/// How wide a name column, an owner column and a comment column must be.
pub ghost struct Extent {
    pub name: nat,
    pub owner: nat,
    pub comment: nat,
}

/// The larger of two numbers.
pub open spec fn larger(a: nat, b: nat) -> nat {
    if a >= b {
        a
    } else {
        b
    }
}

/// `n`, or `usize::MAX` if `n` is beyond it.
pub open spec fn capped(n: nat) -> usize {
    if n > usize::MAX {
        usize::MAX
    } else {
        n as usize
    }
}

impl Extent {
    /// Column by column, the larger width.
    pub open spec fn join(self, other: Extent) -> Extent {
        Extent {
            name: larger(self.name, other.name),
            owner: larger(self.owner, other.owner),
            comment: larger(self.comment, other.comment),
        }
    }

    /// The widths held in an array of three.
    pub open spec fn of(widths: Seq<usize>) -> Extent {
        Extent { name: widths[0] as nat, owner: widths[1] as nat, comment: widths[2] as nat }
    }

    /// The widths as an array of three holds them: each capped at
    /// `usize::MAX`.
    pub open spec fn held_by(self, widths: Seq<usize>) -> bool {
        &&& widths.len() == 3
        &&& widths[0] == capped(self.name)
        &&& widths[1] == capped(self.owner)
        &&& widths[2] == capped(self.comment)
    }
}

/// The length of the longest of the first `n` lines.
pub open spec fn longest(lines: Seq<Seq<u8>>, n: int) -> nat
    decreases n,
{
    if n <= 0 || n > lines.len() {
        0
    } else {
        larger(longest(lines, n - 1), lines[n - 1].len())
    }
}

/// What `t` alone needs at `depth`: four columns of connector per level and
/// its name; its owner; its longest comment line.
pub open spec fn own_extent(t: TodoView, depth: nat) -> Extent {
    Extent {
        name: 4 * depth + t.name.len(),
        owner: t.owner.len(),
        comment: longest(t.comment, t.comment.len() as int),
    }
}

/// What `t` at `depth` and all below it need.
pub open spec fn extent(t: TodoView, depth: nat) -> Extent
    decreases t, t.children.len() + 1,
{
    extent_below(t, depth, t.children.len() as int).join(own_extent(t, depth))
}

/// What the first `n` children of `t`, with all below them, need when `t`
/// is at `depth`.
pub open spec fn extent_below(t: TodoView, depth: nat, n: int) -> Extent
    decreases t, n,
{
    if n <= 0 || n > t.children.len() {
        Extent { name: 0, owner: 0, comment: 0 }
    } else {
        extent_below(t, depth, n - 1).join(extent(t.children[n - 1], depth + 1))
    }
}

/// The root as the header row of a table shows it: with the title of the
/// owner column for an owner if the tree has owners, and the title of the
/// comment column for a comment if it has comments. Any other todo stays as
/// it is.
pub open spec fn titled(t: TodoView, below: Extent) -> TodoView {
    if t.name == root_name() {
        TodoView {
            owner: if below.owner > 0 {
                "OWNER".spec_bytes()
            } else {
                t.owner
            },
            comment: if below.comment > 0 {
                seq!["COMMENT".spec_bytes()]
            } else {
                t.comment
            },
            ..t
        }
    } else {
        t
    }
}

/// A todo at `depth` before its widths are held against the screen: the
/// todo, titled if it is the root, and the widths that it and all below it
/// need joined to those known.
pub open spec fn measured(t: TodoView, known: Extent, depth: nat) -> (TodoView, Extent) {
    let below = known.join(extent_below(t, depth, t.children.len() as int));
    let shown = titled(t, below);
    (shown, below.join(own_extent(shown, depth)))
}

/// What [`Todo::get_maxlens`] makes of a todo at `depth`, of the widths known
/// so far and of the width of the screen: the todo, titled if it is the
/// root, and the widths that it and all below it need joined to those known.
/// For the root, the name and owner columns and the border around them must
/// leave at least one column of the screen, and the comment column gets no
/// more than what they leave.
pub open spec fn laid_out(t: TodoView, known: Extent, depth: nat, screen_width: nat) -> Result<
    (TodoView, Extent),
    TodoErrorView,
> {
    let below = known.join(extent_below(t, depth, t.children.len() as int));
    let shown = titled(t, below);
    let all = below.join(own_extent(shown, depth));
    let needed = (all.name + all.owner + BORDER) as nat;
    if t.name != root_name() {
        Ok((shown, all))
    } else if screen_width <= needed {
        Err(TodoErrorView::TooNarrow { width: screen_width, needed: capped(needed) as nat })
    } else {
        Ok(
            (
                shown,
                Extent {
                    comment: if all.comment < screen_width - needed {
                        all.comment
                    } else {
                        (screen_width - needed) as nat
                    },
                    ..all
                },
            ),
        )
    }
}

/// A tree needs at least the connectors of its depth, and the depth matters
/// to the name column only.
pub proof fn lemma_extent_depth(t: TodoView, d: nat, e: nat)
    ensures
        extent(t, d).name >= 4 * d,
        extent(t, d).owner == extent(t, e).owner,
        extent(t, d).comment == extent(t, e).comment,
    decreases t, t.children.len() + 1,
{
    lemma_extent_below_depth(t, d, e, t.children.len() as int);
}

/// The same of the first `n` children.
pub proof fn lemma_extent_below_depth(t: TodoView, d: nat, e: nat, n: int)
    ensures
        extent_below(t, d, n).owner == extent_below(t, e, n).owner,
        extent_below(t, d, n).comment == extent_below(t, e, n).comment,
        0 < n <= t.children.len() ==> extent_below(t, d, n).name >= 4 * d,
    decreases t, n,
{
    if 0 < n <= t.children.len() {
        lemma_extent_below_depth(t, d, e, n - 1);
        lemma_extent_depth(t.children[n - 1], d + 1, e + 1);
    }
}

/// What the children need depends on the children alone.
pub proof fn lemma_extent_below_same(a: TodoView, b: TodoView, depth: nat, n: int)
    requires
        a.children == b.children,
    ensures
        extent_below(a, depth, n) == extent_below(b, depth, n),
    decreases n,
{
    if 0 < n <= a.children.len() {
        lemma_extent_below_same(a, b, depth, n - 1);
    }
}

/// What the first `n` children need covers what each of them needs.
pub proof fn lemma_extent_below_covers(t: TodoView, depth: nat, n: int, k: int)
    requires
        0 <= k < n <= t.children.len(),
    ensures
        extent(t.children[k], depth + 1).name <= extent_below(t, depth, n).name,
        extent(t.children[k], depth + 1).owner <= extent_below(t, depth, n).owner,
        extent(t.children[k], depth + 1).comment <= extent_below(t, depth, n).comment,
    decreases n,
{
    if k < n - 1 {
        lemma_extent_below_covers(t, depth, n - 1, k);
    }
}

/// Columns as wide as a tree needs are wide enough to draw it.
pub proof fn lemma_fits(t: TodoView, depth: nat, widths: Seq<usize>)
    requires
        widths.len() == 3,
        extent(t, depth).name <= widths[0],
        extent(t, depth).owner <= widths[1],
    ensures
        fits(t, depth, widths),
    decreases t,
{
    assert forall|i: int| 0 <= i < t.children.len() implies fits(
        #[trigger] t.children[i],
        depth + 1,
        widths,
    ) by {
        lemma_extent_below_covers(t, depth, t.children.len() as int, i);
        lemma_fits(t.children[i], depth + 1, widths);
    }
}

/// The widths that the layout of the root gives are wide enough to draw the
/// tree.
pub proof fn lemma_laid_out_fits(
    t: TodoView,
    known: Extent,
    screen_width: nat,
    widths: Seq<usize>,
)
    requires
        t.name == root_name(),
        screen_width <= usize::MAX,
        laid_out(t, known, 0, screen_width) is Ok,
        laid_out(t, known, 0, screen_width)->Ok_0.1.held_by(widths),
    ensures
        fits(laid_out(t, known, 0, screen_width)->Ok_0.0, 0, widths),
{
    let shown = laid_out(t, known, 0, screen_width)->Ok_0.0;
    lemma_extent_below_same(t, shown, 0, t.children.len() as int);
    lemma_fits(shown, 0, widths);
}

/// The length of the longest line.
fn longest_line(lines: &Vec<Vec<u8>>) -> (r: usize)
    ensures
        r == longest(texts(lines@), lines@.len() as int),
{
    let mut r: usize = 0;
    let mut i: usize = 0;
    while i < lines.len()
        invariant
            i <= lines.len(),
            r == longest(texts(lines@), i as int),
        decreases lines.len() - i,
    {
        if lines[i].len() > r {
            r = lines[i].len();
        }
        i = i + 1;
    }
    r
}

/// `4 * depth + len`, capped at `usize::MAX`.
fn name_width(depth: usize, len: usize) -> (r: usize)
    ensures
        r == capped((4 * depth + len) as nat),
{
    let wide: u128 = (depth as u128) * 4 + (len as u128);
    if wide > usize::MAX as u128 {
        usize::MAX
    } else {
        wide as usize
    }
}

impl Todo {
    /// Widens the columns in `maxlens` to what this todo at `depth` and all
    /// below it need.
    fn measure(&self, maxlens: &mut [usize; 3], depth: usize)
        ensures
            Extent::of(old(maxlens)@).join(extent(self@, depth as nat)).held_by(final(maxlens)@),
        decreases self,
    {
        let ghost t = self@;
        proof {
            lemma_view(*self);
        }
        self.measure_children(maxlens, depth);
        let name = name_width(depth, self.name.len());
        if name > maxlens[0] {
            maxlens[0] = name;
        }
        if self.owner.len() > maxlens[1] {
            maxlens[1] = self.owner.len();
        }
        let comment = longest_line(&self.comment);
        if comment > maxlens[2] {
            maxlens[2] = comment;
        }
    }

    /// Widens the columns in `maxlens` to what the todos below this one need
    /// when this one is at `depth`.
    fn measure_children(&self, maxlens: &mut [usize; 3], depth: usize)
        ensures
            Extent::of(old(maxlens)@).join(
                extent_below(self@, depth as nat, self@.children.len() as int),
            ).held_by(final(maxlens)@),
        decreases self, 0nat,
    {
        let ghost t = self@;
        proof {
            lemma_view(*self);
        }
        let deeper: usize = if depth < usize::MAX {
            depth + 1
        } else {
            depth
        };
        let mut k: usize = 0;
        while k < self.children.len()
            invariant
                k <= self.children.len(),
                t == self@,
                t.children == views(self.children@),
                deeper == if depth < usize::MAX {
                    depth + 1
                } else {
                    depth as int
                },
                Extent::of(old(maxlens)@).join(extent_below(t, depth as nat, k as int)).held_by(
                    maxlens@,
                ),
            decreases self.children.len() - k,
        {
            proof {
                lemma_extent_depth(t.children[k as int], deeper as nat, (depth + 1) as nat);
                lemma_extent_depth(t.children[k as int], (depth + 1) as nat, deeper as nat);
            }
            self.children[k].measure(maxlens, deeper);
            k = k + 1;
        }
    }

    /// Works out the widths of the three columns for the tree below and
    /// including this todo, which stands at `depth`.
    ///
    /// `maxlens` comes with the widths known so far and leaves with each
    /// widened to what the tree needs (capped at `usize::MAX`). The root is
    /// given the titles of the owner and comment columns, where the tree has
    /// such columns. For the root, the widths must fit the screen: if the name
    /// and owner columns with their border leave no column of `screen_width`,
    /// the error says so, and leaves the root titled and the widths as the
    /// tree needs them; else the comment column is narrowed to what they
    /// leave.
    #[verifier::rlimit(40)]
    pub fn get_maxlens(
        &mut self,
        maxlens: &mut [usize; 3],
        depth: usize,
        screen_width: usize,
    ) -> (r: Result<(), TodoError>)
        ensures
            match r {
                Ok(_) => match laid_out(
                    old(self)@,
                    Extent::of(old(maxlens)@),
                    depth as nat,
                    screen_width as nat,
                ) {
                    Ok((shown, widths)) => final(self)@ == shown && widths.held_by(
                        final(maxlens)@,
                    ),
                    Err(_) => false,
                },
                Err(e) => {
                    &&& laid_out(
                        old(self)@,
                        Extent::of(old(maxlens)@),
                        depth as nat,
                        screen_width as nat,
                    ) == Err::<(TodoView, Extent), TodoErrorView>(e@)
                    &&& final(self)@ == measured(
                        old(self)@,
                        Extent::of(old(maxlens)@),
                        depth as nat,
                    ).0
                    &&& measured(old(self)@, Extent::of(old(maxlens)@), depth as nat).1.held_by(
                        final(maxlens)@,
                    )
                },
            },
    {
        let ghost t = self@;
        let ghost known = Extent::of(maxlens@);
        proof {
            lemma_view(*self);
        }
        self.measure_children(maxlens, depth);
        let ghost below = known.join(extent_below(t, depth as nat, t.children.len() as int));
        assert(below.held_by(maxlens@));
        let is_root = self.name.len() == 1 && self.name[0] == SLASH;
        assert(is_root == (t.name == root_name())) by {
            if is_root {
                assert(t.name =~= root_name());
            }
        }
        if is_root {
            if maxlens[1] > 0 {
                self.owner = slice("OWNER".as_bytes(), 0, "OWNER".as_bytes().len());
                assert(self.owner@ =~= "OWNER".spec_bytes());
            }
            if maxlens[2] > 0 {
                let title = slice("COMMENT".as_bytes(), 0, "COMMENT".as_bytes().len());
                assert(title@ =~= "COMMENT".spec_bytes());
                let mut comment: Vec<Vec<u8>> = Vec::new();
                comment.push(title);
                assert(texts(comment@) =~= seq!["COMMENT".spec_bytes()]);
                self.comment = comment;
            }
        }
        proof {
            lemma_view(*self);
        }
        let ghost shown = self@;
        assert(shown == titled(t, below));
        let name = name_width(depth, self.name.len());
        if name > maxlens[0] {
            maxlens[0] = name;
        }
        if self.owner.len() > maxlens[1] {
            maxlens[1] = self.owner.len();
        }
        let comment = longest_line(&self.comment);
        if comment > maxlens[2] {
            maxlens[2] = comment;
        }
        let ghost all = below.join(own_extent(shown, depth as nat));
        assert(all.held_by(maxlens@));
        if is_root {
            let needed: u128 = (maxlens[0] as u128) + (maxlens[1] as u128) + (BORDER as u128);
            if screen_width as u128 <= needed {
                let needed: usize = if needed > usize::MAX as u128 {
                    usize::MAX
                } else {
                    needed as usize
                };
                return Err(TodoError::TooNarrow { width: screen_width, needed });
            }
            let left: usize = screen_width - (needed as usize);
            if maxlens[2] > left {
                maxlens[2] = left;
            }
        }
        Ok(())
    }
}

} // verus!
