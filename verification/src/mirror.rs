//! Mirroring host entries into the new root: a directory or a file by a bind
//! mount over a new empty one, a symbolic link by a new link. An entry whose
//! place is already taken by a directory is merged into it, child by child;
//! one whose place is taken otherwise is left out.

use crate::chroot::{RunChroot, RunChrootView};
use crate::host::{
    mirror_flags, Action, ActionView, Command, CommandView, Fatal, MountFlags, Next, NextView,
    NodeKind, OnFailure, Query, QueryView, Reply, ReplyView, Step, StepView,
};
use crate::mount::{DirEntryOrExplicitMount, MountView};
use crate::names::{dev_null, dev_null_path, nix_root, nix_root_path};
use crate::path::{copy_bytes, joined, lemma_views_push, name_path, views, HostPath};
use crate::resolve::{
    resolve_next, resolve_start, Resolution, ResolutionView, Resolved, ResolvedView,
};
use vstd::prelude::*;

verus! {

/// One entry to mirror, and the context to mirror it in.
#[derive(Debug, PartialEq, Eq)]
pub struct Job {
    pub ctx: RunChroot,
    pub entry: DirEntryOrExplicitMount,
}

/// What a [`Job`] holds, as the values that contracts speak of.
pub struct JobView {
    pub ctx: RunChrootView,
    pub entry: MountView,
}

impl View for Job {
    type V = JobView;

    open spec fn view(&self) -> JobView {
        JobView { ctx: self.ctx@, entry: self.entry@ }
    }
}

impl JobView {
    /// Where the entry appears: in the directory mirrored into, under the
    /// entry's name. An entry without a name appears as that directory.
    pub open spec fn mount_point(self) -> Seq<Seq<u8>> {
        joined(self.ctx.rootdir, name_path(self.entry.file_name()))
    }

    /// The same job with its source found at `src`.
    pub open spec fn moved_to(self, src: Seq<Seq<u8>>) -> JobView {
        JobView {
            ctx: self.ctx,
            entry: MountView::ExplicitMount { src, dst_file_name: self.entry.file_name() },
        }
    }

    /// The job that mirrors the child `name` of this job's source into
    /// this job's mount point.
    pub open spec fn child(self, name: Seq<u8>) -> JobView {
        JobView {
            ctx: RunChrootView { rootdir: self.mount_point(), nixdir: self.ctx.nixdir },
            entry: MountView::DirEntry { dir: self.entry.path(), name },
        }
    }

    /// The jobs that mirror the children `names`, in their order.
    pub open spec fn children(self, names: Seq<Seq<u8>>) -> Seq<JobView> {
        Seq::new(names.len(), |i: int| self.child(names[i]))
    }
}

/// A command that stops the construction when it fails.
pub open spec fn strict(action: ActionView) -> CommandView {
    CommandView { action, on_failure: OnFailure::Abort }
}

/// The bind mount of `source` over `dest`, with the flags bind, recursive
/// and private. Its failure is reported and the construction goes on.
pub open spec fn bind_mount_command(source: Seq<Seq<u8>>, dest: Seq<Seq<u8>>) -> CommandView {
    CommandView {
        action: ActionView::BindMount { source, target: dest, flags: mirror_flags() },
        on_failure: OnFailure::Report,
    }
}

/// What mirrors a directory whose place is free: an empty directory, and
/// the source mounted over it. A place that is taken gets no command.
pub open spec fn directory_commands(job: JobView, exists: bool) -> Seq<CommandView> {
    if exists {
        Seq::empty()
    } else {
        seq![
            strict(ActionView::CreateDir { path: job.mount_point(), tolerate_existing: true }),
            bind_mount_command(job.entry.path(), job.mount_point()),
        ]
    }
}

/// What mirrors a file whose place is free: an empty file, and the source
/// mounted over it. A place that is taken gets no command.
pub open spec fn file_commands(job: JobView, exists: bool) -> Seq<CommandView> {
    if exists {
        Seq::empty()
    } else {
        seq![
            strict(ActionView::CreateFile { path: job.mount_point() }),
            bind_mount_command(job.entry.path(), job.mount_point()),
        ]
    }
}

/// What mirrors a symbolic link that resolves to `target`: a link to it.
pub open spec fn symlink_commands(job: JobView, target: Seq<Seq<u8>>) -> Seq<CommandView> {
    seq![strict(ActionView::Symlink { target, link: job.mount_point() })]
}

/// How an entry of the given kind at `path` is mirrored. `/dev/null` is
/// mirrored as a file whatever the host says it is.
pub open spec fn treated_as(kind: NodeKind, path: Seq<Seq<u8>>) -> NodeKind {
    if kind == NodeKind::Directory {
        NodeKind::Directory
    } else if kind == NodeKind::File || path == dev_null() {
        NodeKind::File
    } else if kind == NodeKind::Symlink {
        NodeKind::Symlink
    } else {
        NodeKind::Other
    }
}

/// What a mirror engine is doing.
#[derive(Debug, PartialEq, Eq)]
pub enum Stage {
    /// The source lies under `/nix` and is being resolved into the store.
    Resolving { job: Job, resolution: Resolution },
    /// Asked what the source is.
    Kind { job: Job },
    /// The source is a directory; asked whether its place is taken.
    DirExists { job: Job },
    /// Its place is taken; asked whether by a directory.
    DirIsDir { job: Job },
    /// It is; asked for the children of the source.
    Listing { job: Job },
    /// The source is a file; asked whether its place is taken.
    FileExists { job: Job },
    /// The source is a symbolic link; asked whether its place is taken.
    LinkExists { job: Job },
    /// Its place is free; its target is being resolved.
    LinkTarget { job: Job, resolution: Resolution },
    /// Nothing.
    Finished,
}

/// What a [`Stage`] holds, as the values that contracts speak of.
pub enum StageView {
    Resolving { job: JobView, resolution: ResolutionView },
    Kind { job: JobView },
    DirExists { job: JobView },
    DirIsDir { job: JobView },
    Listing { job: JobView },
    FileExists { job: JobView },
    LinkExists { job: JobView },
    LinkTarget { job: JobView, resolution: ResolutionView },
    Finished,
}

impl View for Stage {
    type V = StageView;

    open spec fn view(&self) -> StageView {
        match self {
            Stage::Resolving { job, resolution } => StageView::Resolving {
                job: job@,
                resolution: resolution@,
            },
            Stage::Kind { job } => StageView::Kind { job: job@ },
            Stage::DirExists { job } => StageView::DirExists { job: job@ },
            Stage::DirIsDir { job } => StageView::DirIsDir { job: job@ },
            Stage::Listing { job } => StageView::Listing { job: job@ },
            Stage::FileExists { job } => StageView::FileExists { job: job@ },
            Stage::LinkExists { job } => StageView::LinkExists { job: job@ },
            Stage::LinkTarget { job, resolution } => StageView::LinkTarget {
                job: job@,
                resolution: resolution@,
            },
            Stage::Finished => StageView::Finished,
        }
    }
}

/// A mirror engine: the entry at hand, and the entries still to come, the
/// next one first.
#[derive(Debug, PartialEq, Eq)]
pub struct Mirror {
    queue: Vec<Job>,
    stage: Stage,
}

/// What a [`Mirror`] holds, as the values that contracts speak of.
pub struct MirrorView {
    pub queue: Seq<JobView>,
    pub stage: StageView,
}

impl View for Mirror {
    type V = MirrorView;

    closed spec fn view(&self) -> MirrorView {
        MirrorView { queue: views(self.queue@), stage: self.stage@ }
    }
}

/// A step without commands that asks `question`.
pub open spec fn ask(question: QueryView) -> StepView {
    StepView { commands: Seq::empty(), next: NextView::Ask(question) }
}

/// Stop: nothing more is mirrored.
pub open spec fn mirror_abort(queue: Seq<JobView>, reason: Fatal) -> (MirrorView, StepView) {
    (
        MirrorView { queue, stage: StageView::Finished },
        StepView { commands: Seq::empty(), next: NextView::Abort(reason) },
    )
}

/// Takes up the first of `queue`. An entry under `/nix` is first resolved
/// into the store, stopping at the first link target outside `/nix`; of any
/// other the engine asks what it is. With nothing to do the engine is done.
pub open spec fn mirror_begin(queue: Seq<JobView>) -> (MirrorView, StepView) {
    if queue.len() == 0 {
        (
            MirrorView { queue, stage: StageView::Finished },
            StepView { commands: Seq::empty(), next: NextView::Done },
        )
    } else {
        let job = queue[0];
        let source = job.entry.path();
        if nix_root().is_prefix_of(source) {
            (
                MirrorView {
                    queue: queue.skip(1),
                    stage: StageView::Resolving {
                        job,
                        resolution: resolve_start(job.ctx.nixdir, source, true).0,
                    },
                },
                ask(QueryView::IsSymlink(source)),
            )
        } else {
            (
                MirrorView { queue: queue.skip(1), stage: StageView::Kind { job } },
                ask(QueryView::Kind(source)),
            )
        }
    }
}

/// The entry at hand is dealt with by `commands`; the engine takes up the
/// next.
pub open spec fn mirror_finish(queue: Seq<JobView>, commands: Seq<CommandView>) -> (
    MirrorView,
    StepView,
) {
    let (m, step) = mirror_begin(queue);
    (m, StepView { commands, next: step.next })
}

/// The state and the step of a mirror engine that is told `reply`.
pub open spec fn mirror_next(m: MirrorView, reply: ReplyView) -> (MirrorView, StepView) {
    match m.stage {
        StageView::Resolving { job, resolution } => {
            let (resolution, out) = resolve_next(resolution, reply);
            match out {
                ResolvedView::Ask(q) => (
                    MirrorView { queue: m.queue, stage: StageView::Resolving { job, resolution } },
                    ask(q),
                ),
                ResolvedView::Done(Ok(src)) => (
                    MirrorView {
                        queue: m.queue,
                        stage: StageView::Kind { job: job.moved_to(src) },
                    },
                    ask(QueryView::Kind(src)),
                ),
                ResolvedView::Done(Err(_)) => mirror_abort(m.queue, Fatal::Unresolvable),
            }
        },
        StageView::Kind { job } => match reply {
            ReplyView::Kind(Some(kind)) => match treated_as(kind, job.entry.path()) {
                NodeKind::Directory => (
                    MirrorView { queue: m.queue, stage: StageView::DirExists { job } },
                    ask(QueryView::Exists(job.mount_point())),
                ),
                NodeKind::File => (
                    MirrorView { queue: m.queue, stage: StageView::FileExists { job } },
                    ask(QueryView::Exists(job.mount_point())),
                ),
                NodeKind::Symlink => (
                    MirrorView { queue: m.queue, stage: StageView::LinkExists { job } },
                    ask(QueryView::Exists(job.mount_point())),
                ),
                NodeKind::Other => mirror_abort(m.queue, Fatal::UnknownKind),
            },
            ReplyView::Kind(None) => mirror_abort(m.queue, Fatal::NoMetadata),
            _ => mirror_abort(m.queue, Fatal::Unexpected),
        },
        StageView::DirExists { job } => match reply {
            ReplyView::Flag(true) => (
                MirrorView { queue: m.queue, stage: StageView::DirIsDir { job } },
                ask(QueryView::IsDir(job.mount_point())),
            ),
            ReplyView::Flag(false) => mirror_finish(m.queue, directory_commands(job, false)),
            _ => mirror_abort(m.queue, Fatal::Unexpected),
        },
        StageView::DirIsDir { job } => match reply {
            ReplyView::Flag(true) => (
                MirrorView { queue: m.queue, stage: StageView::Listing { job } },
                ask(QueryView::List(job.entry.path())),
            ),
            ReplyView::Flag(false) => mirror_finish(m.queue, Seq::empty()),
            _ => mirror_abort(m.queue, Fatal::Unexpected),
        },
        StageView::Listing { job } => match reply {
            ReplyView::Names(Some(names)) => mirror_finish(
                job.children(names) + m.queue,
                Seq::empty(),
            ),
            ReplyView::Names(None) => mirror_abort(m.queue, Fatal::ListFailed),
            _ => mirror_abort(m.queue, Fatal::Unexpected),
        },
        StageView::FileExists { job } => match reply {
            ReplyView::Flag(exists) => mirror_finish(m.queue, file_commands(job, exists)),
            _ => mirror_abort(m.queue, Fatal::Unexpected),
        },
        StageView::LinkExists { job } => match reply {
            ReplyView::Flag(true) => mirror_finish(m.queue, Seq::empty()),
            ReplyView::Flag(false) => (
                MirrorView {
                    queue: m.queue,
                    stage: StageView::LinkTarget {
                        job,
                        resolution: resolve_start(job.ctx.nixdir, job.entry.path(), true).0,
                    },
                },
                ask(QueryView::IsSymlink(job.entry.path())),
            ),
            _ => mirror_abort(m.queue, Fatal::Unexpected),
        },
        StageView::LinkTarget { job, resolution } => {
            let (resolution, out) = resolve_next(resolution, reply);
            match out {
                ResolvedView::Ask(q) => (
                    MirrorView { queue: m.queue, stage: StageView::LinkTarget { job, resolution } },
                    ask(q),
                ),
                ResolvedView::Done(Ok(target)) => mirror_finish(
                    m.queue,
                    symlink_commands(job, target),
                ),
                ResolvedView::Done(Err(_)) => mirror_abort(m.queue, Fatal::BrokenLink),
            }
        },
        StageView::Finished => mirror_abort(m.queue, Fatal::Unexpected),
    }
}

/// The bind mount of `source` over `dest`, with the flags bind, recursive
/// and private. Its failure is reported and the construction goes on.
pub fn bind_mount(source: HostPath, dest: HostPath) -> (command: Command)
    ensures
        command@ == bind_mount_command(source@, dest@),
{
    Command {
        action: Action::BindMount {
            source,
            target: dest,
            flags: MountFlags { bind: true, recursive: true, private: true },
        },
        on_failure: OnFailure::Report,
    }
}

/// A step without commands that asks `question`.
pub fn ask_step(question: Query) -> (step: Step)
    ensures
        step@ == ask(question@),
{
    let step = Step { commands: Vec::new(), next: Next::Ask(question) };
    assert(step@.commands =~= Seq::<CommandView>::empty());
    step
}

impl Job {
    /// Where the entry appears.
    pub fn mount_point(&self) -> (p: HostPath)
        ensures
            p@ == self@.mount_point(),
    {
        let name = self.entry.file_name();
        let tail = HostPath::from_name(name.as_ref());
        self.ctx.rootdir().join(&tail)
    }

    /// The jobs that mirror the children `names` of this job's source into
    /// this job's mount point, in their order.
    pub fn children(&self, names: &Vec<Vec<u8>>) -> (jobs: Vec<Job>)
        ensures
            views(jobs@) == self@.children(views(names@)),
    {
        let mut jobs: Vec<Job> = Vec::new();
        let mut i: usize = 0;
        while i < names.len()
            invariant
                i <= names.len(),
                views(jobs@) == self@.children(views(names@)).take(i as int),
            decreases names.len() - i,
        {
            let job = Job {
                ctx: self.ctx.with_rootdir(self.mount_point()),
                entry: DirEntryOrExplicitMount::from(
                    self.entry.path(),
                    copy_bytes(names[i].as_slice()),
                ),
            };
            proof {
                lemma_views_push(jobs@, job);
                assert(self@.children(views(names@)).take(i + 1) =~= self@.children(
                    views(names@),
                ).take(i as int).push(job@));
            }
            jobs.push(job);
            i += 1;
        }
        assert(self@.children(views(names@)).take(names.len() as int) =~= self@.children(
            views(names@),
        ));
        jobs
    }
}

impl RunChroot {
    /// What mirrors the directory `entry` into this context, given whether
    /// its place is taken.
    pub fn bind_mount_directory(&self, entry: &DirEntryOrExplicitMount, exists: bool) -> (commands:
        Vec<Command>)
        ensures
            views(commands@) == directory_commands(
                JobView { ctx: self@, entry: entry@ },
                exists,
            ),
    {
        let job = Job { ctx: self.clone(), entry: entry.clone() };
        let mut commands: Vec<Command> = Vec::new();
        if !exists {
            commands.push(
                Command {
                    action: Action::CreateDir { path: job.mount_point(), tolerate_existing: true },
                    on_failure: OnFailure::Abort,
                },
            );
            commands.push(bind_mount(entry.path(), job.mount_point()));
        }
        assert(views(commands@) =~= directory_commands(job@, exists));
        commands
    }

    /// What mirrors the file `entry` into this context, given whether its
    /// place is taken.
    pub fn bind_mount_file(&self, entry: &DirEntryOrExplicitMount, exists: bool) -> (commands: Vec<
        Command,
    >)
        ensures
            views(commands@) == file_commands(JobView { ctx: self@, entry: entry@ }, exists),
    {
        let job = Job { ctx: self.clone(), entry: entry.clone() };
        let mut commands: Vec<Command> = Vec::new();
        if !exists {
            commands.push(
                Command {
                    action: Action::CreateFile { path: job.mount_point() },
                    on_failure: OnFailure::Abort,
                },
            );
            commands.push(bind_mount(entry.path(), job.mount_point()));
        }
        assert(views(commands@) =~= file_commands(job@, exists));
        commands
    }

    /// What mirrors the symbolic link `entry`, whose place is free, into
    /// this context, given what the link resolves to.
    pub fn mirror_symlink(&self, entry: &DirEntryOrExplicitMount, target: HostPath) -> (commands:
        Vec<Command>)
        ensures
            views(commands@) == symlink_commands(JobView { ctx: self@, entry: entry@ }, target@),
    {
        let job = Job { ctx: self.clone(), entry: entry.clone() };
        let mut commands: Vec<Command> = Vec::new();
        commands.push(
            Command {
                action: Action::Symlink { target, link: job.mount_point() },
                on_failure: OnFailure::Abort,
            },
        );
        assert(views(commands@) =~= symlink_commands(job@, target@));
        commands
    }

    /// Begins to mirror `entry` into this context.
    pub fn bind_mount_entry(&self, entry: DirEntryOrExplicitMount) -> (start: (Mirror, Step))
        ensures
            (start.0@, start.1@) == mirror_begin(seq![(JobView { ctx: self@, entry: entry@ })]),
    {
        let mut queue: Vec<Job> = Vec::new();
        let job = Job { ctx: self.clone(), entry };
        queue.push(job);
        assert(views(queue@) =~= seq![job@]);
        Mirror::begin(queue)
    }
}

/// How an entry of the given kind at `path` is mirrored.
pub fn treat_as(kind: NodeKind, path: &HostPath) -> (treated: NodeKind)
    ensures
        treated == treated_as(kind, path@),
{
    match kind {
        NodeKind::Directory => NodeKind::Directory,
        NodeKind::File => NodeKind::File,
        _ => {
            if path.same(&dev_null_path()) {
                NodeKind::File
            } else {
                match kind {
                    NodeKind::Symlink => NodeKind::Symlink,
                    _ => NodeKind::Other,
                }
            }
        },
    }
}

impl Mirror {
    /// Begins to mirror the entries of `queue`, the first one first.
    pub fn begin(queue: Vec<Job>) -> (out: (Mirror, Step))
        ensures
            (out.0@, out.1@) == mirror_begin(views(queue@)),
    {
        let mut queue = queue;
        if queue.len() == 0 {
            let step = Step { commands: Vec::new(), next: Next::Done };
            assert(step@.commands =~= Seq::<CommandView>::empty());
            return (Mirror { queue, stage: Stage::Finished }, step);
        }
        let ghost before = queue@;
        let job = queue.remove(0);
        assert(views(queue@) =~= views(before).skip(1));
        let source = job.entry.path();
        if source.starts_with(&nix_root_path()) {
            let (resolution, _) = job.ctx.resolve_nix_path(source.clone(), true);
            let step = ask_step(Query::IsSymlink(source));
            (Mirror { queue, stage: Stage::Resolving { job, resolution } }, step)
        } else {
            let step = ask_step(Query::Kind(source));
            (Mirror { queue, stage: Stage::Kind { job } }, step)
        }
    }

    /// Gives `commands` for the entry at hand and takes up the next.
    fn finish(queue: Vec<Job>, commands: Vec<Command>) -> (out: (Mirror, Step))
        ensures
            (out.0@, out.1@) == mirror_finish(views(queue@), views(commands@)),
    {
        let (m, step) = Mirror::begin(queue);
        (m, Step { commands, next: step.next })
    }

    /// Stops for `reason`.
    fn abort(queue: Vec<Job>, reason: Fatal) -> (out: (Mirror, Step))
        ensures
            (out.0@, out.1@) == mirror_abort(views(queue@), reason),
    {
        let step = Step { commands: Vec::new(), next: Next::Abort(reason) };
        assert(step@.commands =~= Seq::<CommandView>::empty());
        (Mirror { queue, stage: Stage::Finished }, step)
    }

    /// Whether nothing is left to do.
    pub fn is_finished(&self) -> (yes: bool)
        ensures
            yes == (self@.stage == StageView::Finished),
    {
        match self.stage {
            Stage::Finished => true,
            _ => false,
        }
    }

    /// Takes the answer to the question last asked and says how the
    /// mirroring goes on.
    pub fn step(self, reply: Reply) -> (out: (Mirror, Step))
        ensures
            (out.0@, out.1@) == mirror_next(self@, reply@),
    {
        let Mirror { queue, stage } = self;
        match stage {
            Stage::Resolving { job, resolution } => {
                let (resolution, out) = resolution.step(reply);
                match out {
                    Resolved::Ask(q) => (
                        Mirror { queue, stage: Stage::Resolving { job, resolution } },
                        ask_step(q),
                    ),
                    Resolved::Done(Ok(src)) => {
                        let question = Query::Kind(src.clone());
                        let moved = Job {
                            ctx: job.ctx,
                            entry: DirEntryOrExplicitMount::ExplicitMount {
                                src,
                                dst_file_name: job.entry.file_name(),
                            },
                        };
                        (Mirror { queue, stage: Stage::Kind { job: moved } }, ask_step(question))
                    },
                    Resolved::Done(Err(_)) => Mirror::abort(queue, Fatal::Unresolvable),
                }
            },
            Stage::Kind { job } => match reply {
                Reply::Kind(Some(kind)) => {
                    let source = job.entry.path();
                    match treat_as(kind, &source) {
                        NodeKind::Directory => {
                            let question = Query::Exists(job.mount_point());
                            (Mirror { queue, stage: Stage::DirExists { job } }, ask_step(question))
                        },
                        NodeKind::File => {
                            let question = Query::Exists(job.mount_point());
                            (Mirror { queue, stage: Stage::FileExists { job } }, ask_step(question))
                        },
                        NodeKind::Symlink => {
                            let question = Query::Exists(job.mount_point());
                            (Mirror { queue, stage: Stage::LinkExists { job } }, ask_step(question))
                        },
                        NodeKind::Other => Mirror::abort(queue, Fatal::UnknownKind),
                    }
                },
                Reply::Kind(None) => Mirror::abort(queue, Fatal::NoMetadata),
                _ => Mirror::abort(queue, Fatal::Unexpected),
            },
            Stage::DirExists { job } => match reply {
                Reply::Flag(true) => {
                    let question = Query::IsDir(job.mount_point());
                    (Mirror { queue, stage: Stage::DirIsDir { job } }, ask_step(question))
                },
                Reply::Flag(false) => {
                    let commands = job.ctx.bind_mount_directory(&job.entry, false);
                    Mirror::finish(queue, commands)
                },
                _ => Mirror::abort(queue, Fatal::Unexpected),
            },
            Stage::DirIsDir { job } => match reply {
                Reply::Flag(true) => {
                    let question = Query::List(job.entry.path());
                    (Mirror { queue, stage: Stage::Listing { job } }, ask_step(question))
                },
                Reply::Flag(false) => {
                    let commands: Vec<Command> = Vec::new();
                    assert(views(commands@) =~= Seq::<CommandView>::empty());
                    Mirror::finish(queue, commands)
                },
                _ => Mirror::abort(queue, Fatal::Unexpected),
            },
            Stage::Listing { job } => match reply {
                Reply::Names(Some(names)) => {
                    let mut all = job.children(&names);
                    let mut rest = queue;
                    let ghost first = all@;
                    let ghost second = rest@;
                    all.append(&mut rest);
                    assert(views(all@) =~= views(first) + views(second));
                    let commands: Vec<Command> = Vec::new();
                    assert(views(commands@) =~= Seq::<CommandView>::empty());
                    Mirror::finish(all, commands)
                },
                Reply::Names(None) => Mirror::abort(queue, Fatal::ListFailed),
                _ => Mirror::abort(queue, Fatal::Unexpected),
            },
            Stage::FileExists { job } => match reply {
                Reply::Flag(exists) => {
                    let commands = job.ctx.bind_mount_file(&job.entry, exists);
                    Mirror::finish(queue, commands)
                },
                _ => Mirror::abort(queue, Fatal::Unexpected),
            },
            Stage::LinkExists { job } => match reply {
                Reply::Flag(true) => {
                    let commands: Vec<Command> = Vec::new();
                    assert(views(commands@) =~= Seq::<CommandView>::empty());
                    Mirror::finish(queue, commands)
                },
                Reply::Flag(false) => {
                    let source = job.entry.path();
                    let (resolution, _) = job.ctx.resolve_nix_path(source.clone(), true);
                    let step = ask_step(Query::IsSymlink(source));
                    (Mirror { queue, stage: Stage::LinkTarget { job, resolution } }, step)
                },
                _ => Mirror::abort(queue, Fatal::Unexpected),
            },
            Stage::LinkTarget { job, resolution } => {
                let (resolution, out) = resolution.step(reply);
                match out {
                    Resolved::Ask(q) => (
                        Mirror { queue, stage: Stage::LinkTarget { job, resolution } },
                        ask_step(q),
                    ),
                    Resolved::Done(Ok(target)) => {
                        let commands = job.ctx.mirror_symlink(&job.entry, target);
                        Mirror::finish(queue, commands)
                    },
                    Resolved::Done(Err(_)) => Mirror::abort(queue, Fatal::BrokenLink),
                }
            },
            Stage::Finished => Mirror::abort(queue, Fatal::Unexpected),
        }
    }
}

} // verus!
