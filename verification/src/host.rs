//! What passes between the library and the program that drives it: the
//! questions about the host, their answers, and the commands to carry out.

use crate::path::{views, HostPath};
use vstd::prelude::*;

verus! {

/// What a directory entry is, without following a symbolic link.
#[derive(Clone, Copy, Debug, PartialEq, Eq, Structural)]
pub enum NodeKind {
    Directory,
    File,
    Symlink,
    Other,
}

/// What is done when a command fails.
#[derive(Clone, Copy, Debug, PartialEq, Eq, Structural)]
pub enum OnFailure {
    /// Stop with a message: nothing more is carried out, and the process
    /// does not leave as if all had gone well.
    Abort,
    /// Print the failure and go on.
    Report,
    /// Go on in silence.
    Ignore,
    /// Print the failure and leave with exit status 1.
    Exit,
}

/// The flags of a bind mount.
#[derive(Clone, Copy, Debug, PartialEq, Eq, Structural)]
pub struct MountFlags {
    pub bind: bool,
    pub recursive: bool,
    pub private: bool,
}

/// A question about the host.
#[derive(Debug, PartialEq, Eq)]
pub enum Query {
    /// Is the path itself a symbolic link?
    IsSymlink(HostPath),
    /// Does the path, symbolic links followed, lead anywhere?
    Exists(HostPath),
    /// Does the path, symbolic links followed, lead to a directory?
    IsDir(HostPath),
    /// Where does the symbolic link at the path point?
    ReadLink(HostPath),
    /// What is at the path, symbolic links not followed?
    Kind(HostPath),
    /// Which names does the directory at the path hold?
    List(HostPath),
    /// What is the name of the user with this id?
    UserName(u32),
}

/// What a [`Query`] holds, as the values that contracts speak of.
pub enum QueryView {
    IsSymlink(Seq<Seq<u8>>),
    Exists(Seq<Seq<u8>>),
    IsDir(Seq<Seq<u8>>),
    ReadLink(Seq<Seq<u8>>),
    Kind(Seq<Seq<u8>>),
    List(Seq<Seq<u8>>),
    UserName(u32),
}

impl View for Query {
    type V = QueryView;

    open spec fn view(&self) -> QueryView {
        match self {
            Query::IsSymlink(p) => QueryView::IsSymlink(p@),
            Query::Exists(p) => QueryView::Exists(p@),
            Query::IsDir(p) => QueryView::IsDir(p@),
            Query::ReadLink(p) => QueryView::ReadLink(p@),
            Query::Kind(p) => QueryView::Kind(p@),
            Query::List(p) => QueryView::List(p@),
            Query::UserName(uid) => QueryView::UserName(*uid),
        }
    }
}

/// The answer to a question. `None` says that the host refused to answer.
#[derive(Debug, PartialEq, Eq)]
pub enum Reply {
    /// To `IsSymlink`, `Exists` and `IsDir`.
    Flag(bool),
    /// To `ReadLink`.
    Link(Option<HostPath>),
    /// To `Kind`.
    Kind(Option<NodeKind>),
    /// To `List`.
    Names(Option<Vec<Vec<u8>>>),
    /// To `UserName`.
    UserName(Option<Vec<u8>>),
}

/// What a [`Reply`] holds, as the values that contracts speak of.
pub enum ReplyView {
    Flag(bool),
    Link(Option<Seq<Seq<u8>>>),
    Kind(Option<NodeKind>),
    Names(Option<Seq<Seq<u8>>>),
    UserName(Option<Seq<u8>>),
}

impl View for Reply {
    type V = ReplyView;

    open spec fn view(&self) -> ReplyView {
        match self {
            Reply::Flag(b) => ReplyView::Flag(*b),
            Reply::Link(Some(p)) => ReplyView::Link(Some(p@)),
            Reply::Link(None) => ReplyView::Link(None),
            Reply::Kind(k) => ReplyView::Kind(*k),
            Reply::Names(Some(names)) => ReplyView::Names(Some(views(names@))),
            Reply::Names(None) => ReplyView::Names(None),
            Reply::UserName(Some(name)) => ReplyView::UserName(Some(name@)),
            Reply::UserName(None) => ReplyView::UserName(None),
        }
    }
}

/// A warning for the user. The construction goes on.
#[derive(Debug, PartialEq, Eq)]
pub enum Notice {
    /// The user has no profile in the store, so this profile mount is left
    /// out.
    MissingProfile { user: Vec<u8>, source: HostPath, target: HostPath },
    /// The source of this mount leads nowhere, so the mount is left out.
    MissingSource { source: HostPath },
}

/// What a [`Notice`] holds, as the values that contracts speak of.
pub enum NoticeView {
    MissingProfile { user: Seq<u8>, source: Seq<Seq<u8>>, target: Seq<Seq<u8>> },
    MissingSource { source: Seq<Seq<u8>> },
}

impl View for Notice {
    type V = NoticeView;

    open spec fn view(&self) -> NoticeView {
        match self {
            Notice::MissingProfile { user, source, target } => NoticeView::MissingProfile {
                user: user@,
                source: source@,
                target: target@,
            },
            Notice::MissingSource { source } => NoticeView::MissingSource { source: source@ },
        }
    }
}

/// Something for the driver to do on the host.
#[derive(Debug, PartialEq, Eq)]
pub enum Action {
    /// Leave the mount and user namespaces for new ones, and no others.
    Unshare,
    /// Create one directory. With `tolerate_existing`, finding it there
    /// already is no failure.
    CreateDir { path: HostPath, tolerate_existing: bool },
    /// Create a directory and the directories above it that are missing.
    CreateDirAll { path: HostPath },
    /// Create an empty file.
    CreateFile { path: HostPath },
    /// Mount `source` over `target`.
    BindMount { source: HostPath, target: HostPath, flags: MountFlags },
    /// Create at `link` a symbolic link that points to `target`.
    Symlink { target: HostPath, link: HostPath },
    /// Take away what is mounted at the path.
    Unmount { path: HostPath },
    /// Make the path the root directory of this process.
    ChangeRoot { path: HostPath },
    /// Make the path the working directory.
    ChangeDir { path: HostPath },
    /// Write the bytes to the file, in place of what it holds.
    WriteFile { path: HostPath, content: Vec<u8> },
    /// Become the program, with the environment as it is but for one
    /// variable set to the given value.
    Exec { program: Vec<u8>, args: Vec<Vec<u8>>, variable: Vec<u8>, value: Vec<u8> },
    /// Tell the user.
    Warn(Notice),
}

/// What a [`Action`] holds, as the values that contracts speak of.
pub enum ActionView {
    Unshare,
    CreateDir { path: Seq<Seq<u8>>, tolerate_existing: bool },
    CreateDirAll { path: Seq<Seq<u8>> },
    CreateFile { path: Seq<Seq<u8>> },
    BindMount { source: Seq<Seq<u8>>, target: Seq<Seq<u8>>, flags: MountFlags },
    Symlink { target: Seq<Seq<u8>>, link: Seq<Seq<u8>> },
    Unmount { path: Seq<Seq<u8>> },
    ChangeRoot { path: Seq<Seq<u8>> },
    ChangeDir { path: Seq<Seq<u8>> },
    WriteFile { path: Seq<Seq<u8>>, content: Seq<u8> },
    Exec { program: Seq<u8>, args: Seq<Seq<u8>>, variable: Seq<u8>, value: Seq<u8> },
    Warn(NoticeView),
}

impl View for Action {
    type V = ActionView;

    open spec fn view(&self) -> ActionView {
        match self {
            Action::Unshare => ActionView::Unshare,
            Action::CreateDir { path, tolerate_existing } => ActionView::CreateDir {
                path: path@,
                tolerate_existing: *tolerate_existing,
            },
            Action::CreateDirAll { path } => ActionView::CreateDirAll { path: path@ },
            Action::CreateFile { path } => ActionView::CreateFile { path: path@ },
            Action::BindMount { source, target, flags } => ActionView::BindMount {
                source: source@,
                target: target@,
                flags: *flags,
            },
            Action::Symlink { target, link } => ActionView::Symlink {
                target: target@,
                link: link@,
            },
            Action::Unmount { path } => ActionView::Unmount { path: path@ },
            Action::ChangeRoot { path } => ActionView::ChangeRoot { path: path@ },
            Action::ChangeDir { path } => ActionView::ChangeDir { path: path@ },
            Action::WriteFile { path, content } => ActionView::WriteFile {
                path: path@,
                content: content@,
            },
            Action::Exec { program, args, variable, value } => ActionView::Exec {
                program: program@,
                args: views(args@),
                variable: variable@,
                value: value@,
            },
            Action::Warn(notice) => ActionView::Warn(notice@),
        }
    }
}

/// An action, and what to do when it fails.
#[derive(Debug, PartialEq, Eq)]
pub struct Command {
    pub action: Action,
    pub on_failure: OnFailure,
}

/// What a [`Command`] holds, as the values that contracts speak of.
pub struct CommandView {
    pub action: ActionView,
    pub on_failure: OnFailure,
}

impl View for Command {
    type V = CommandView;

    open spec fn view(&self) -> CommandView {
        CommandView { action: self.action@, on_failure: self.on_failure }
    }
}

/// Why a construction cannot go on.
#[derive(Clone, Copy, Debug, PartialEq, Eq, Structural)]
pub enum Fatal {
    /// An entry under `/nix` could not be resolved into the store.
    Unresolvable,
    /// The host would not say what an entry is.
    NoMetadata,
    /// The entry is neither directory, file nor symbolic link.
    UnknownKind,
    /// A directory could not be listed.
    ListFailed,
    /// The target of a symbolic link could not be resolved.
    BrokenLink,
    /// The invoking user has no name.
    UnknownUser,
    /// The answer does not fit the question that was asked, or came when
    /// none was asked.
    Unexpected,
}

/// What the driver does once it has carried out a step's commands.
#[derive(Debug, PartialEq, Eq)]
pub enum Next {
    /// Answer the question and hand the answer to the next step.
    Ask(Query),
    /// Nothing: the work is done.
    Done,
    /// Stop with a message.
    Abort(Fatal),
}

/// What a [`Next`] holds, as the values that contracts speak of.
pub enum NextView {
    Ask(QueryView),
    Done,
    Abort(Fatal),
}

impl View for Next {
    type V = NextView;

    open spec fn view(&self) -> NextView {
        match self {
            Next::Ask(q) => NextView::Ask(q@),
            Next::Done => NextView::Done,
            Next::Abort(f) => NextView::Abort(*f),
        }
    }
}

/// One step of an engine: commands to carry out in order, then what to do.
#[derive(Debug, PartialEq, Eq)]
pub struct Step {
    pub commands: Vec<Command>,
    pub next: Next,
}

/// What a [`Step`] holds, as the values that contracts speak of.
pub struct StepView {
    pub commands: Seq<CommandView>,
    pub next: NextView,
}

impl View for Step {
    type V = StepView;

    open spec fn view(&self) -> StepView {
        StepView { commands: views(self.commands@), next: self.next@ }
    }
}

/// The flags of every mount that mirrors a host entry: bind, recursive,
/// private.
pub open spec fn mirror_flags() -> MountFlags {
    MountFlags { bind: true, recursive: true, private: true }
}

/// The flags of the mount that lays the store over `nix`: bind and recursive.
/// Propagation stays as it is.
pub open spec fn overlay_flags() -> MountFlags {
    MountFlags { bind: true, recursive: true, private: false }
}

} // verus!
