//! Turns a markdown-like list of todos, each with an owner, comments and
//! named dependencies, into a dependency tree and renders that tree for a
//! terminal, as HTML, as JSON or back as markdown.
//!
//! The work goes through four stages, each with a definition of what it
//! computes and executable code that is proved to compute it:
//!
//! * reading: [`grammar`] says what the lines of a file mean, and
//!   [`tree::Tree::readmd`] reads them;
//! * gathering: [`assemble`] says which todos stand at the top and which
//!   names are used without a definition;
//! * resolving: [`resolve`] walks the dependencies and makes the tree, and
//!   [`layout`] finds the widths of its columns;
//! * rendering: [`render`] says what the tree looks like in each format, and
//!   [`draw`] writes it.
//!
//! [`tree::Tree::new`] runs the first three, [`tree::Tree::render`] the
//! last. What holds of the whole is proved in [`laws`] (each todo is shown
//! once, none is left out, status follows from the markers), [`loops`] (a
//! loop that is reported is one, and a loop within reach is refused),
//! [`roundtrip`] and [`legibility`] (the markdown that is rendered is read
//! back as the todos of the tree) and [`regrow`] (the tree made from that
//! markdown is the same tree), which rests on [`byname`] and [`kin`].
//!
//! Text is held as bytes (UTF-8) throughout; [`text`] defines the operations
//! on it and [`bytes`] runs them.
use vstd::prelude::*;
use vstd::string::*;

pub mod assemble;
pub mod byname;
pub mod bytes;
pub mod draw;
pub mod grammar;
pub mod kin;
pub mod laws;
pub mod layout;
pub mod legibility;
pub mod loops;
pub mod message;
pub mod regrow;
pub mod render;
pub mod resolve;
pub mod roundtrip;
pub mod text;
pub mod todo;
pub mod tree;

verus! {

/// The output formats.
#[derive(Clone, Copy, Debug, PartialEq, Eq, Structural)]
pub enum Format {
    Html,
    Json,
    Term,
    Md,
}

/// Where a todo stands.
#[derive(Clone, Copy, Debug, PartialEq, Eq, Structural)]
pub enum Status {
    /// Marked as done in the input.
    Completed,
    /// Not done, and waiting for a dependency that is not done.
    Pending,
    /// Not done, with every dependency done.
    Actionable,
}

impl Format {
    /// The format that a name stands for; the empty name stands for `Term`.
    pub open spec fn named(name: Seq<u8>) -> Option<Format> {
        if name == "html".spec_bytes() {
            Some(Format::Html)
        } else if name == "json".spec_bytes() {
            Some(Format::Json)
        } else if name == "term".spec_bytes() || name.len() == 0 {
            Some(Format::Term)
        } else if name == "md".spec_bytes() {
            Some(Format::Md)
        } else {
            None
        }
    }

    /// Reads a format name: `html`, `json`, `term`, `md`, or nothing at all
    /// for `term`. Any other name is refused.
    pub fn from_name(name: &[u8]) -> (r: Result<Format, TodoError>)
        ensures
            match r {
                Ok(f) => Format::named(name@) == Some(f),
                Err(e) => Format::named(name@).is_none() && e@ == TodoErrorView::UnknownFormat,
            },
    {
        if bytes::equal(name, "html".as_bytes()) {
            Ok(Format::Html)
        } else if bytes::equal(name, "json".as_bytes()) {
            Ok(Format::Json)
        } else if bytes::equal(name, "term".as_bytes()) || name.len() == 0 {
            Ok(Format::Term)
        } else if bytes::equal(name, "md".as_bytes()) {
            Ok(Format::Md)
        } else {
            Err(TodoError::UnknownFormat)
        }
    }

    /// Whether the format draws the tree as rows of a table.
    pub fn is_table(&self) -> (r: bool)
        ensures
            r == (*self == Format::Term || *self == Format::Html),
    {
        match self {
            Format::Term | Format::Html => true,
            _ => false,
        }
    }
}

impl Status {
    /// The status in words.
    pub open spec fn label_spec(self) -> Seq<u8> {
        match self {
            Status::Completed => "Completed".spec_bytes(),
            Status::Pending => "Pending".spec_bytes(),
            Status::Actionable => "Actionable".spec_bytes(),
        }
    }

    /// The status in words: `Completed`, `Pending` or `Actionable`.
    pub fn label(&self) -> (r: Vec<u8>)
        ensures
            r@ == self.label_spec(),
    {
        let mut out: Vec<u8> = Vec::new();
        match self {
            Status::Completed => bytes::append(&mut out, "Completed".as_bytes()),
            Status::Pending => bytes::append(&mut out, "Pending".as_bytes()),
            Status::Actionable => bytes::append(&mut out, "Actionable".as_bytes()),
        }
        assert(out@ =~= self.label_spec());
        out
    }
}

/// Why an input was refused. Each kind has a number of its own, see
/// [`TodoError::code`].
#[derive(Debug)]
pub enum TodoError {
    /// A name holds a byte that is neither a letter, a digit nor one of the
    /// punctuation marks allowed in names.
    UnsupportedCharacter { name: Vec<u8>, byte: u8 },
    /// Walking the dependencies of `name` led back to a todo that the walk is
    /// still inside of.
    DependencyLoop { name: Vec<u8> },
    /// A dependency names a todo that is not defined.
    MissingTodo { name: Vec<u8> },
    /// `name` is marked as completed while the dependencies `pending` are not.
    UnfinishedDependencies { name: Vec<u8>, pending: Vec<Vec<u8>> },
    /// The name and owner columns with their borders need `needed` columns
    /// (capped at `usize::MAX`), more than the `width` at hand allows.
    TooNarrow { width: usize, needed: usize },
    /// The format name is none of the known ones.
    UnknownFormat,
    /// Every todo is a dependency of another one, so none can stand at the
    /// top.
    NoRoot,
    /// A name is empty, or a header gives the reserved name of the root.
    ReservedName,
    /// The input defines no todo.
    NoTodo,
    /// `parent` refers to `name` with a completion marker although `name`
    /// has a definition of its own.
    MarkedDefinition { name: Vec<u8>, parent: Vec<u8> },
    /// The undefined todo `name` is referred to with a completion marker by
    /// one of `first` and `second` and without one by the other.
    ConflictingMarkers { name: Vec<u8>, first: Vec<u8>, second: Vec<u8> },
    /// An owner, comment or dependency line stands before the first header.
    MissingHeader,
    /// Two headers give the same name.
    DuplicateName { name: Vec<u8> },
    /// A todo names itself among its dependencies.
    SelfDependency { name: Vec<u8> },
    /// A name ends with the separator `/`.
    TrailingSlash { name: Vec<u8> },
    /// No todo in the tree has the requested owner.
    UnknownOwner { owner: Vec<u8> },
    /// Reverse order was asked for together with a format that is no table.
    ReverseUnsupported,
}

/// What a [`TodoError`] says, as a mathematical value.
pub ghost enum TodoErrorView {
    UnsupportedCharacter { name: Seq<u8>, byte: u8 },
    DependencyLoop { name: Seq<u8> },
    MissingTodo { name: Seq<u8> },
    UnfinishedDependencies { name: Seq<u8>, pending: Seq<Seq<u8>> },
    TooNarrow { width: nat, needed: nat },
    UnknownFormat,
    NoRoot,
    ReservedName,
    NoTodo,
    MarkedDefinition { name: Seq<u8>, parent: Seq<u8> },
    ConflictingMarkers { name: Seq<u8>, first: Seq<u8>, second: Seq<u8> },
    MissingHeader,
    DuplicateName { name: Seq<u8> },
    SelfDependency { name: Seq<u8> },
    TrailingSlash { name: Seq<u8> },
    UnknownOwner { owner: Seq<u8> },
    ReverseUnsupported,
}

/// The five families of errors.
#[derive(Clone, Copy, Debug, PartialEq, Eq, Structural)]
pub enum ErrorKind {
    /// A line or a name is malformed.
    Syntax,
    /// The dependency graph is malformed.
    Structure,
    /// Completion markers contradict each other or the graph.
    Consistency,
    /// The output does not fit the width at hand.
    Layout,
    /// The options cannot be used as given.
    Configuration,
}

impl View for TodoError {
    type V = TodoErrorView;

    open spec fn view(&self) -> TodoErrorView {
        match *self {
            TodoError::UnsupportedCharacter { name, byte } => TodoErrorView::UnsupportedCharacter {
                name: name@,
                byte,
            },
            TodoError::DependencyLoop { name } => TodoErrorView::DependencyLoop { name: name@ },
            TodoError::MissingTodo { name } => TodoErrorView::MissingTodo { name: name@ },
            TodoError::UnfinishedDependencies { name, pending } => {
                TodoErrorView::UnfinishedDependencies { name: name@, pending: text::texts(pending@) }
            },
            TodoError::TooNarrow { width, needed } => TodoErrorView::TooNarrow {
                width: width as nat,
                needed: needed as nat,
            },
            TodoError::UnknownFormat => TodoErrorView::UnknownFormat,
            TodoError::NoRoot => TodoErrorView::NoRoot,
            TodoError::ReservedName => TodoErrorView::ReservedName,
            TodoError::NoTodo => TodoErrorView::NoTodo,
            TodoError::MarkedDefinition { name, parent } => TodoErrorView::MarkedDefinition {
                name: name@,
                parent: parent@,
            },
            TodoError::ConflictingMarkers { name, first, second } => {
                TodoErrorView::ConflictingMarkers { name: name@, first: first@, second: second@ }
            },
            TodoError::MissingHeader => TodoErrorView::MissingHeader,
            TodoError::DuplicateName { name } => TodoErrorView::DuplicateName { name: name@ },
            TodoError::SelfDependency { name } => TodoErrorView::SelfDependency { name: name@ },
            TodoError::TrailingSlash { name } => TodoErrorView::TrailingSlash { name: name@ },
            TodoError::UnknownOwner { owner } => TodoErrorView::UnknownOwner { owner: owner@ },
            TodoError::ReverseUnsupported => TodoErrorView::ReverseUnsupported,
        }
    }
}

impl TodoErrorView {
    /// The number of the error's kind.
    pub open spec fn code(self) -> nat {
        match self {
            TodoErrorView::UnsupportedCharacter { .. } => 1,
            TodoErrorView::DependencyLoop { .. } => 2,
            TodoErrorView::MissingTodo { .. } => 3,
            TodoErrorView::UnfinishedDependencies { .. } => 4,
            TodoErrorView::TooNarrow { .. } => 5,
            TodoErrorView::UnknownFormat => 6,
            TodoErrorView::NoRoot => 7,
            TodoErrorView::ReservedName => 9,
            TodoErrorView::NoTodo => 10,
            TodoErrorView::MarkedDefinition { .. } => 11,
            TodoErrorView::ConflictingMarkers { .. } => 12,
            TodoErrorView::MissingHeader => 13,
            TodoErrorView::DuplicateName { .. } => 14,
            TodoErrorView::SelfDependency { .. } => 16,
            TodoErrorView::TrailingSlash { .. } => 18,
            TodoErrorView::UnknownOwner { .. } => 22,
            TodoErrorView::ReverseUnsupported => 24,
        }
    }

    /// The family that the error belongs to.
    pub open spec fn kind(self) -> ErrorKind {
        match self {
            TodoErrorView::UnsupportedCharacter { .. }
            | TodoErrorView::ReservedName
            | TodoErrorView::MissingHeader
            | TodoErrorView::SelfDependency { .. }
            | TodoErrorView::TrailingSlash { .. } => ErrorKind::Syntax,
            TodoErrorView::DependencyLoop { .. }
            | TodoErrorView::MissingTodo { .. }
            | TodoErrorView::NoRoot
            | TodoErrorView::NoTodo
            | TodoErrorView::DuplicateName { .. } => ErrorKind::Structure,
            TodoErrorView::UnfinishedDependencies { .. }
            | TodoErrorView::MarkedDefinition { .. }
            | TodoErrorView::ConflictingMarkers { .. } => ErrorKind::Consistency,
            TodoErrorView::TooNarrow { .. } => ErrorKind::Layout,
            TodoErrorView::UnknownFormat
            | TodoErrorView::UnknownOwner { .. }
            | TodoErrorView::ReverseUnsupported => ErrorKind::Configuration,
        }
    }
}

impl TodoError {
    /// The number of the error's kind, as it stands at the head of its
    /// message.
    pub fn code(&self) -> (r: u32)
        ensures
            r == self@.code(),
    {
        match self {
            TodoError::UnsupportedCharacter { .. } => 1,
            TodoError::DependencyLoop { .. } => 2,
            TodoError::MissingTodo { .. } => 3,
            TodoError::UnfinishedDependencies { .. } => 4,
            TodoError::TooNarrow { .. } => 5,
            TodoError::UnknownFormat => 6,
            TodoError::NoRoot => 7,
            TodoError::ReservedName => 9,
            TodoError::NoTodo => 10,
            TodoError::MarkedDefinition { .. } => 11,
            TodoError::ConflictingMarkers { .. } => 12,
            TodoError::MissingHeader => 13,
            TodoError::DuplicateName { .. } => 14,
            TodoError::SelfDependency { .. } => 16,
            TodoError::TrailingSlash { .. } => 18,
            TodoError::UnknownOwner { .. } => 22,
            TodoError::ReverseUnsupported => 24,
        }
    }

    /// The family that the error belongs to.
    pub fn kind(&self) -> (r: ErrorKind)
        ensures
            r == self@.kind(),
    {
        match self {
            TodoError::UnsupportedCharacter { .. }
            | TodoError::ReservedName
            | TodoError::MissingHeader
            | TodoError::SelfDependency { .. }
            | TodoError::TrailingSlash { .. } => ErrorKind::Syntax,
            TodoError::DependencyLoop { .. }
            | TodoError::MissingTodo { .. }
            | TodoError::NoRoot
            | TodoError::NoTodo
            | TodoError::DuplicateName { .. } => ErrorKind::Structure,
            TodoError::UnfinishedDependencies { .. }
            | TodoError::MarkedDefinition { .. }
            | TodoError::ConflictingMarkers { .. } => ErrorKind::Consistency,
            TodoError::TooNarrow { .. } => ErrorKind::Layout,
            TodoError::UnknownFormat
            | TodoError::UnknownOwner { .. }
            | TodoError::ReverseUnsupported => ErrorKind::Configuration,
        }
    }
}

} // verus!
