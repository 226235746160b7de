//! The wording of the errors.
use crate::{TodoError, TodoErrorView};
use crate::bytes::{append, digits, join};
use crate::text::{decimal, joined};
use vstd::prelude::*;
use vstd::string::*;

verus! {

impl TodoErrorView {
    /// What the error says to the user: a tag with the number of its kind,
    /// then a sentence that names what was found.
    pub open spec fn message(self) -> Seq<u8> {
        match self {
            TodoErrorView::UnsupportedCharacter { name, byte } => "ERR-001: Todo name '".spec_bytes()
                + name + "' contains unsupported character '".spec_bytes() + seq![byte]
                + "', which is not alphabet, digit, or one of ! @ $ % & ( ) - _ = + : ' \" . ?".spec_bytes(),
            TodoErrorView::DependencyLoop { name } => "ERR-002: Todo '".spec_bytes() + name
                + "' has a dependency loop".spec_bytes(),
            TodoErrorView::MissingTodo { name } => "ERR-003: Todo '".spec_bytes() + name
                + "' is missing in the markdown file".spec_bytes(),
            TodoErrorView::UnfinishedDependencies { name, pending } => "ERR-004: Todo '".spec_bytes()
                + name + "' cannot be completed because its dependencies [".spec_bytes() + joined(
                pending,
                ", ".spec_bytes(),
            ) + "] are not completed yet".spec_bytes(),
            TodoErrorView::TooNarrow { width, needed } => "ERR-005: Screen width is ".spec_bytes()
                + decimal(width) + ", but this todotree needs at least ".spec_bytes() + decimal(
                needed,
            ) + " columns".spec_bytes(),
            TodoErrorView::UnknownFormat => "ERR-006: Wrong parameter for -f".spec_bytes(),
            TodoErrorView::NoRoot => "ERR-007: Failed to find root node, as all todos are in dependency loops".spec_bytes(),
            TodoErrorView::ReservedName => "ERR-009: '/' is a reserved Todo name keyword, and a name must not be empty".spec_bytes(),
            TodoErrorView::NoTodo => "ERR-010: The markdown file does not have any Todo".spec_bytes(),
            TodoErrorView::MarkedDefinition { name, parent } => "ERR-011: Todo '".spec_bytes() + name
                + "' has its own '# ' line, then it should not have '~' in the dependencies list of '".spec_bytes()
                + parent + "'".spec_bytes(),
            TodoErrorView::ConflictingMarkers { name, first, second } => "ERR-012: Todo '".spec_bytes()
                + second + "' and todo '".spec_bytes() + first
                + "' disagree on '~' in front of their dependency '".spec_bytes() + name
                + "'".spec_bytes(),
            TodoErrorView::MissingHeader => "ERR-013: Missing '# [TODO]' before '- @', '- :', or '- %' in the todotree markdown file".spec_bytes(),
            TodoErrorView::DuplicateName { name } => "ERR-014: Duplicated todo name '".spec_bytes()
                + name + "'".spec_bytes(),
            TodoErrorView::SelfDependency { name } => "ERR-016: Todo '".spec_bytes() + name
                + "' should not depend on itself".spec_bytes(),
            TodoErrorView::TrailingSlash { name } => "ERR-018: Todo name '".spec_bytes() + name
                + "' should not end with '/'".spec_bytes(),
            TodoErrorView::UnknownOwner { owner } => "ERR-022: no such owner '".spec_bytes() + owner
                + "' in the markdown file".spec_bytes(),
            TodoErrorView::ReverseUnsupported => "ERR-024: --reverse works with Term or Html only".spec_bytes(),
        }
    }
}

/// `head`, `name` and `tail` one after the other.
fn framed(head: &str, name: &[u8], tail: &str) -> (r: Vec<u8>)
    ensures
        r@ == head.spec_bytes() + name@ + tail.spec_bytes(),
{
    let mut out: Vec<u8> = Vec::new();
    append(&mut out, head.as_bytes());
    assert(out@ =~= head.spec_bytes());
    append(&mut out, name);
    append(&mut out, tail.as_bytes());
    out
}

/// The bytes of `s`.
fn plain(s: &str) -> (r: Vec<u8>)
    ensures
        r@ == s.spec_bytes(),
{
    let mut out: Vec<u8> = Vec::new();
    append(&mut out, s.as_bytes());
    assert(out@ =~= s.spec_bytes());
    out
}

impl TodoError {
    /// What the error says to the user.
    pub fn message(&self) -> (r: Vec<u8>)
        ensures
            r@ == self@.message(),
    {
        match self {
            TodoError::UnsupportedCharacter { name, byte } => {
                let mut out = plain("ERR-001: Todo name '");
                append(&mut out, name.as_slice());
                append(&mut out, "' contains unsupported character '".as_bytes());
                out.push(*byte);
                append(
                    &mut out,
                    "', which is not alphabet, digit, or one of ! @ $ % & ( ) - _ = + : ' \" . ?".as_bytes(),
                );
                out
            },
            TodoError::DependencyLoop { name } => framed(
                "ERR-002: Todo '",
                name.as_slice(),
                "' has a dependency loop",
            ),
            TodoError::MissingTodo { name } => framed(
                "ERR-003: Todo '",
                name.as_slice(),
                "' is missing in the markdown file",
            ),
            TodoError::UnfinishedDependencies { name, pending } => {
                let list = join(pending, ", ".as_bytes());
                let mut out = plain("ERR-004: Todo '");
                append(&mut out, name.as_slice());
                append(&mut out, "' cannot be completed because its dependencies [".as_bytes());
                append(&mut out, list.as_slice());
                append(&mut out, "] are not completed yet".as_bytes());
                out
            },
            TodoError::TooNarrow { width, needed } => {
                let w = digits(*width);
                let n = digits(*needed);
                let mut out = plain("ERR-005: Screen width is ");
                append(&mut out, w.as_slice());
                append(&mut out, ", but this todotree needs at least ".as_bytes());
                append(&mut out, n.as_slice());
                append(&mut out, " columns".as_bytes());
                out
            },
            TodoError::UnknownFormat => plain("ERR-006: Wrong parameter for -f"),
            TodoError::NoRoot => plain(
                "ERR-007: Failed to find root node, as all todos are in dependency loops",
            ),
            TodoError::ReservedName => plain(
                "ERR-009: '/' is a reserved Todo name keyword, and a name must not be empty",
            ),
            TodoError::NoTodo => plain("ERR-010: The markdown file does not have any Todo"),
            TodoError::MarkedDefinition { name, parent } => {
                let mut out = plain("ERR-011: Todo '");
                append(&mut out, name.as_slice());
                append(
                    &mut out,
                    "' has its own '# ' line, then it should not have '~' in the dependencies list of '".as_bytes(),
                );
                append(&mut out, parent.as_slice());
                append(&mut out, "'".as_bytes());
                out
            },
            TodoError::ConflictingMarkers { name, first, second } => {
                let mut out = plain("ERR-012: Todo '");
                append(&mut out, second.as_slice());
                append(&mut out, "' and todo '".as_bytes());
                append(&mut out, first.as_slice());
                append(&mut out, "' disagree on '~' in front of their dependency '".as_bytes());
                append(&mut out, name.as_slice());
                append(&mut out, "'".as_bytes());
                out
            },
            TodoError::MissingHeader => plain(
                "ERR-013: Missing '# [TODO]' before '- @', '- :', or '- %' in the todotree markdown file",
            ),
            TodoError::DuplicateName { name } => framed(
                "ERR-014: Duplicated todo name '",
                name.as_slice(),
                "'",
            ),
            TodoError::SelfDependency { name } => framed(
                "ERR-016: Todo '",
                name.as_slice(),
                "' should not depend on itself",
            ),
            TodoError::TrailingSlash { name } => framed(
                "ERR-018: Todo name '",
                name.as_slice(),
                "' should not end with '/'",
            ),
            TodoError::UnknownOwner { owner } => framed(
                "ERR-022: no such owner '",
                owner.as_slice(),
                "' in the markdown file",
            ),
            TodoError::ReverseUnsupported => plain(
                "ERR-024: --reverse works with Term or Html only",
            ),
        }
    }
}

} // verus!
