//! The construction of the view, from leaving the namespaces to becoming
//! the program: which commands are given, in which order, and what is asked
//! of the host in between.

use crate::chroot::{RunChroot, RunChrootView};
use crate::config::{Mapping, MappingView, PathConfig, PathConfigView, PolicyError, ExcludePaths};
use crate::host::{
    overlay_flags, Action, ActionView, Command, CommandView, Fatal, MountFlags, Next, NextView,
    Notice, NoticeView, OnFailure, Query, QueryView, Reply, ReplyView, Step, StepView,
};
use crate::identity::{id_map_line, id_map_text};
use crate::mirror::{
    ask, ask_step, bind_mount, bind_mount_command, mirror_begin, mirror_next, strict, Job, JobView,
    Mirror, MirrorView,
};
use crate::mount::{DirEntryOrExplicitMount, MountView};
use crate::names::{
    conf_dir_name, conf_dir_name_bytes, conf_dir_value, conf_dir_value_bytes, deny_text,
    deny_text_bytes, dev_null, dev_null_path, gid_map_file, gid_map_file_path, nix_name,
    nix_name_bytes, opengl_source, opengl_source_path, opengl_target, opengl_target_path,
    profile_link, profile_link_path, profiles_dir, profiles_dir_path, root_dir, root_dir_path,
    setgroups_file, setgroups_file_path, store_mount, store_mount_path, uid_map_file,
    uid_map_file_path,
};
use crate::path::{
    bytes_equal, copy_bytes, copy_names, is_absolute, joined, lemma_views_push, name_of,
    parent_of, parsed, views, HostPath,
};
use crate::resolve::{
    resolve_next, resolve_start, Resolution, ResolutionView, Resolved, ResolvedView,
};
use vstd::prelude::*;

verus! {

/// The path without its root, where it has one.
pub open spec fn unrooted(p: Seq<Seq<u8>>) -> Seq<Seq<u8>> {
    if is_absolute(p) {
        p.skip(1)
    } else {
        p
    }
}

/// The path without its last component, or the empty path where it has no
/// parent.
pub open spec fn parent_or_empty(p: Seq<Seq<u8>>) -> Seq<Seq<u8>> {
    match parent_of(p) {
        Some(dir) => dir,
        None => Seq::empty(),
    }
}

/// The mounts that reserve the excluded destinations: `/dev/null` at each,
/// in order.
pub open spec fn placeholder_mounts(excludes: Seq<Seq<Seq<u8>>>) -> Seq<MappingView> {
    Seq::new(
        excludes.len(),
        |i: int| MappingView { source: dev_null(), target: excludes[i] },
    )
}

/// The profile mounts with each source taken below the profile directory
/// `dir`, a leading root of the source left out.
pub open spec fn profile_mounts(dir: Seq<Seq<u8>>, profile: Seq<MappingView>) -> Seq<MappingView> {
    Seq::new(
        profile.len(),
        |i: int|
            MappingView {
                source: joined(dir, unrooted(profile[i].source)),
                target: profile[i].target,
            },
    )
}

/// Every mount that the policy asks for, in the order in which they are
/// made: the placeholders of the excluded destinations, the profile mounts
/// where the profile directory was found, the absolute mounts.
pub open spec fn explicit_mounts(policy: PathConfigView, dir: Option<Seq<Seq<u8>>>) -> Seq<
    MappingView,
> {
    placeholder_mounts(policy.excludes) + match dir {
        Some(d) => profile_mounts(d, policy.profile),
        None => Seq::empty(),
    } + policy.absolute
}

/// A warning as a command.
pub open spec fn warn(notice: NoticeView) -> CommandView {
    CommandView { action: ActionView::Warn(notice), on_failure: OnFailure::Ignore }
}

/// One warning for each profile mount that is left out for want of a
/// profile.
pub open spec fn profile_notices(profile: Seq<MappingView>, user: Seq<u8>) -> Seq<CommandView> {
    Seq::new(
        profile.len(),
        |i: int|
            warn(
                NoticeView::MissingProfile {
                    user,
                    source: profile[i].source,
                    target: profile[i].target,
                },
            ),
    )
}

/// The commands that take the placeholders away again: one unmount for each
/// excluded destination, below `rootdir`.
pub open spec fn unmounts(rootdir: Seq<Seq<u8>>, excludes: Seq<Seq<Seq<u8>>>) -> Seq<CommandView> {
    Seq::new(
        excludes.len(),
        |i: int| strict(ActionView::Unmount { path: joined(rootdir, unrooted(excludes[i])) }),
    )
}

/// The user's profile directory in the store.
pub open spec fn profile_dir(nixdir: Seq<Seq<u8>>, user: Seq<u8>) -> Seq<Seq<u8>> {
    joined(joined(joined(nixdir, profiles_dir()), parsed(user)), profile_link())
}

/// The directory below `rootdir` that holds the destination `target`.
pub open spec fn explicit_parent(rootdir: Seq<Seq<u8>>, target: Seq<Seq<u8>>) -> Seq<Seq<u8>> {
    joined(rootdir, parent_or_empty(unrooted(target)))
}

/// The job that makes the explicit mount `mount`, whose source was resolved
/// to `src`: it mirrors `src` into the directory that holds the destination,
/// under the destination's name.
pub open spec fn explicit_job(
    ctx: RunChrootView,
    mount: MappingView,
    src: Seq<Seq<u8>>,
) -> JobView {
    JobView {
        ctx: RunChrootView {
            rootdir: explicit_parent(ctx.rootdir, mount.target),
            nixdir: ctx.nixdir,
        },
        entry: MountView::ExplicitMount { src, dst_file_name: name_of(mount.target) },
    }
}

/// The job that mirrors the entry `name` of the host's root directory.
pub open spec fn root_job(ctx: RunChrootView, name: Seq<u8>) -> JobView {
    JobView { ctx, entry: MountView::DirEntry { dir: root_dir(), name } }
}

/// The jobs that mirror the entries of the host's root directory, in order.
/// The entry `nix` is left out.
pub open spec fn root_jobs(ctx: RunChrootView, names: Seq<Seq<u8>>) -> Seq<JobView>
    decreases names.len(),
{
    if names.len() == 0 {
        Seq::empty()
    } else if names.last() == nix_name() {
        root_jobs(ctx, names.drop_last())
    } else {
        root_jobs(ctx, names.drop_last()).push(root_job(ctx, names.last()))
    }
}

/// What gives the view the store's OpenGL driver libraries, where the store
/// has any: the directory for them, and the store's directory mounted over
/// it.
pub open spec fn opengl_commands(ctx: RunChrootView, found: bool) -> Seq<CommandView> {
    if found {
        seq![
            strict(ActionView::CreateDirAll { path: joined(ctx.rootdir, opengl_target()) }),
            bind_mount_command(
                joined(ctx.nixdir, opengl_source()),
                joined(ctx.rootdir, opengl_target()),
            ),
        ]
    } else {
        Seq::empty()
    }
}

/// Whom the view is built for, and what runs in it.
#[derive(Debug, PartialEq, Eq)]
pub struct Launch {
    pub uid: u32,
    pub gid: u32,
    pub cwd: HostPath,
    pub program: Vec<u8>,
    pub args: Vec<Vec<u8>>,
}

/// What a [`Launch`] holds, as the values that contracts speak of.
pub struct LaunchView {
    /// The user id of the invoking user.
    pub uid: u32,
    /// The group id of the invoking user.
    pub gid: u32,
    /// The working directory at the start.
    pub cwd: Seq<Seq<u8>>,
    /// The program to become.
    pub program: Seq<u8>,
    /// Its arguments.
    pub args: Seq<Seq<u8>>,
}

impl View for Launch {
    type V = LaunchView;

    open spec fn view(&self) -> LaunchView {
        LaunchView {
            uid: self.uid,
            gid: self.gid,
            cwd: self.cwd@,
            program: self.program@,
            args: views(self.args@),
        }
    }
}

/// The commands that end every construction, once the host's root is
/// mirrored: the placeholders are unmounted; the store is laid over `nix`;
/// the process changes its root and goes to `/`; the identity is mapped;
/// the process goes back to where it was and becomes the program, with
/// `NIX_CONF_DIR` set.
pub open spec fn closing_commands(
    ctx: RunChrootView,
    launch: LaunchView,
    excludes: Seq<Seq<Seq<u8>>>,
) -> Seq<CommandView> {
    unmounts(ctx.rootdir, excludes) + seq![
        strict(
            ActionView::CreateDir {
                path: joined(ctx.rootdir, store_mount()),
                tolerate_existing: false,
            },
        ),
        strict(
            ActionView::BindMount {
                source: ctx.nixdir,
                target: joined(ctx.rootdir, store_mount()),
                flags: overlay_flags(),
            },
        ),
        strict(ActionView::ChangeRoot { path: ctx.rootdir }),
        strict(ActionView::ChangeDir { path: root_dir() }),
        CommandView {
            action: ActionView::WriteFile { path: setgroups_file(), content: deny_text() },
            on_failure: OnFailure::Ignore,
        },
        strict(
            ActionView::WriteFile {
                path: uid_map_file(),
                content: id_map_text(launch.uid as nat),
            },
        ),
        strict(
            ActionView::WriteFile {
                path: gid_map_file(),
                content: id_map_text(launch.gid as nat),
            },
        ),
        strict(ActionView::ChangeDir { path: launch.cwd }),
        CommandView {
            action: ActionView::Exec {
                program: launch.program,
                args: launch.args,
                variable: conf_dir_name(),
                value: conf_dir_value(),
            },
            on_failure: OnFailure::Exit,
        },
    ]
}

/// How far a construction has come.
#[derive(Debug, PartialEq, Eq)]
pub enum Phase {
    /// Asked whether the store has OpenGL driver libraries.
    OpenGl,
    /// Asked for the name of the invoking user.
    User,
    /// The user's profile directory is being resolved.
    Profile { user: Vec<u8>, resolution: Resolution },
    /// The source of the explicit mount `mount` is being resolved; `rest`
    /// comes after it.
    Source { resolution: Resolution, mount: Mapping, rest: Vec<Mapping> },
    /// An explicit mount is being made; `rest` comes after it.
    Mount { mirror: Mirror, rest: Vec<Mapping> },
    /// Asked for the entries of the host's root directory.
    RootList,
    /// The host's root directory is being mirrored.
    RootMirror { mirror: Mirror },
    /// Nothing is left to do.
    Finished,
}

/// What a [`Phase`] holds, as the values that contracts speak of.
pub enum PhaseView {
    OpenGl,
    User,
    Profile { user: Seq<u8>, resolution: ResolutionView },
    Source { resolution: ResolutionView, mount: MappingView, rest: Seq<MappingView> },
    Mount { mirror: MirrorView, rest: Seq<MappingView> },
    RootList,
    RootMirror { mirror: MirrorView },
    Finished,
}

impl View for Phase {
    type V = PhaseView;

    open spec fn view(&self) -> PhaseView {
        match self {
            Phase::OpenGl => PhaseView::OpenGl,
            Phase::User => PhaseView::User,
            Phase::Profile { user, resolution } => PhaseView::Profile {
                user: user@,
                resolution: resolution@,
            },
            Phase::Source { resolution, mount, rest } => PhaseView::Source {
                resolution: resolution@,
                mount: mount@,
                rest: views(rest@),
            },
            Phase::Mount { mirror, rest } => PhaseView::Mount {
                mirror: mirror@,
                rest: views(rest@),
            },
            Phase::RootList => PhaseView::RootList,
            Phase::RootMirror { mirror } => PhaseView::RootMirror { mirror: mirror@ },
            Phase::Finished => PhaseView::Finished,
        }
    }
}

/// A construction under way.
#[derive(Debug)]
pub struct Construction {
    ctx: RunChroot,
    launch: Launch,
    policy: PathConfig,
    has_policy: bool,
    phase: Phase,
}

/// What a [`Construction`] holds, as the values that contracts speak of.
pub struct ConstructionView {
    pub ctx: RunChrootView,
    pub launch: LaunchView,
    /// The mount policy; the empty one where none was given.
    pub policy: PathConfigView,
    /// Whether a policy was given.
    pub has_policy: bool,
    pub phase: PhaseView,
}

impl View for Construction {
    type V = ConstructionView;

    closed spec fn view(&self) -> ConstructionView {
        ConstructionView {
            ctx: self.ctx@,
            launch: self.launch@,
            policy: self.policy@,
            has_policy: self.has_policy,
            phase: self.phase@,
        }
    }
}

/// The policy that asks for nothing.
pub open spec fn no_policy() -> PathConfigView {
    PathConfigView { excludes: Seq::empty(), profile: Seq::empty(), absolute: Seq::empty() }
}

/// Stop: nothing more is done.
pub open spec fn construct_abort(s: ConstructionView, reason: Fatal) -> (
    ConstructionView,
    StepView,
) {
    (
        ConstructionView { phase: PhaseView::Finished, ..s },
        StepView { commands: Seq::empty(), next: NextView::Abort(reason) },
    )
}

/// With `commands` given, turn to the host's root directory.
pub open spec fn to_root(s: ConstructionView, commands: Seq<CommandView>) -> (
    ConstructionView,
    StepView,
) {
    (
        ConstructionView { phase: PhaseView::RootList, ..s },
        StepView { commands, next: NextView::Ask(QueryView::List(root_dir())) },
    )
}

/// With `commands` given, turn to the first of the explicit mounts
/// `mounts`: its source is resolved, stopping at the first link target
/// outside `/nix`. With none left, turn to the host's root directory.
pub open spec fn next_mount(
    s: ConstructionView,
    mounts: Seq<MappingView>,
    commands: Seq<CommandView>,
) -> (ConstructionView, StepView) {
    if mounts.len() == 0 {
        to_root(s, commands)
    } else {
        let mount = mounts[0];
        (
            ConstructionView {
                phase: PhaseView::Source {
                    resolution: resolve_start(s.ctx.nixdir, mount.source, true).0,
                    mount,
                    rest: mounts.skip(1),
                },
                ..s
            },
            StepView { commands, next: NextView::Ask(QueryView::IsSymlink(mount.source)) },
        )
    }
}

/// How the construction goes on when the engine that makes an explicit
/// mount has made `step`, with the commands `before` to give first.
pub open spec fn go_on_explicit(
    s: ConstructionView,
    mirror: MirrorView,
    step: StepView,
    rest: Seq<MappingView>,
    before: Seq<CommandView>,
) -> (ConstructionView, StepView) {
    match step.next {
        NextView::Ask(q) => (
            ConstructionView { phase: PhaseView::Mount { mirror, rest }, ..s },
            StepView { commands: before + step.commands, next: NextView::Ask(q) },
        ),
        NextView::Done => next_mount(s, rest, before + step.commands),
        NextView::Abort(reason) => (
            ConstructionView { phase: PhaseView::Finished, ..s },
            StepView { commands: before + step.commands, next: NextView::Abort(reason) },
        ),
    }
}

/// How the construction goes on when the engine that mirrors the host's
/// root directory has made `step`. Once that engine is done, the closing
/// commands follow.
pub open spec fn go_on_root(s: ConstructionView, mirror: MirrorView, step: StepView) -> (
    ConstructionView,
    StepView,
) {
    match step.next {
        NextView::Ask(q) => (
            ConstructionView { phase: PhaseView::RootMirror { mirror }, ..s },
            StepView { commands: step.commands, next: NextView::Ask(q) },
        ),
        NextView::Done => (
            ConstructionView { phase: PhaseView::Finished, ..s },
            StepView {
                commands: step.commands + closing_commands(s.ctx, s.launch, s.policy.excludes),
                next: NextView::Done,
            },
        ),
        NextView::Abort(reason) => (
            ConstructionView { phase: PhaseView::Finished, ..s },
            StepView { commands: step.commands, next: NextView::Abort(reason) },
        ),
    }
}

/// The first state of a construction and its first step: the namespaces are
/// left, and the store is asked for OpenGL driver libraries.
pub open spec fn construct_start(
    ctx: RunChrootView,
    launch: LaunchView,
    policy: Option<PathConfigView>,
) -> (ConstructionView, StepView) {
    (
        ConstructionView {
            ctx,
            launch,
            policy: match policy {
                Some(p) => p,
                None => no_policy(),
            },
            has_policy: policy.is_some(),
            phase: PhaseView::OpenGl,
        },
        StepView {
            commands: seq![strict(ActionView::Unshare)],
            next: NextView::Ask(QueryView::IsDir(joined(ctx.nixdir, opengl_source()))),
        },
    )
}

/// The state and the step of a construction that is told `reply`.
pub open spec fn construct_next(s: ConstructionView, reply: ReplyView) -> (
    ConstructionView,
    StepView,
) {
    match s.phase {
        PhaseView::OpenGl => match reply {
            ReplyView::Flag(found) => if s.has_policy {
                (
                    ConstructionView { phase: PhaseView::User, ..s },
                    StepView {
                        commands: opengl_commands(s.ctx, found),
                        next: NextView::Ask(QueryView::UserName(s.launch.uid)),
                    },
                )
            } else {
                to_root(s, opengl_commands(s.ctx, found))
            },
            _ => construct_abort(s, Fatal::Unexpected),
        },
        PhaseView::User => match reply {
            ReplyView::UserName(Some(user)) => (
                ConstructionView {
                    phase: PhaseView::Profile {
                        user,
                        resolution: resolve_start(
                            s.ctx.nixdir,
                            profile_dir(s.ctx.nixdir, user),
                            false,
                        ).0,
                    },
                    ..s
                },
                ask(QueryView::IsSymlink(profile_dir(s.ctx.nixdir, user))),
            ),
            ReplyView::UserName(None) => construct_abort(s, Fatal::UnknownUser),
            _ => construct_abort(s, Fatal::Unexpected),
        },
        PhaseView::Profile { user, resolution } => {
            let (resolution, out) = resolve_next(resolution, reply);
            match out {
                ResolvedView::Ask(q) => (
                    ConstructionView { phase: PhaseView::Profile { user, resolution }, ..s },
                    ask(q),
                ),
                ResolvedView::Done(Ok(dir)) => next_mount(
                    s,
                    explicit_mounts(s.policy, Some(dir)),
                    Seq::empty(),
                ),
                ResolvedView::Done(Err(_)) => next_mount(
                    s,
                    explicit_mounts(s.policy, None),
                    profile_notices(s.policy.profile, user),
                ),
            }
        },
        PhaseView::Source { resolution, mount, rest } => {
            let (resolution, out) = resolve_next(resolution, reply);
            match out {
                ResolvedView::Ask(q) => (
                    ConstructionView {
                        phase: PhaseView::Source { resolution, mount, rest },
                        ..s
                    },
                    ask(q),
                ),
                ResolvedView::Done(Ok(src)) => {
                    let job = explicit_job(s.ctx, mount, src);
                    let (mirror, step) = mirror_begin(seq![job]);
                    go_on_explicit(
                        s,
                        mirror,
                        step,
                        rest,
                        seq![strict(ActionView::CreateDirAll { path: job.ctx.rootdir })],
                    )
                },
                ResolvedView::Done(Err(_)) => next_mount(
                    s,
                    rest,
                    seq![warn(NoticeView::MissingSource { source: mount.source })],
                ),
            }
        },
        PhaseView::Mount { mirror, rest } => {
            let (mirror, step) = mirror_next(mirror, reply);
            go_on_explicit(s, mirror, step, rest, Seq::empty())
        },
        PhaseView::RootList => match reply {
            ReplyView::Names(Some(names)) => {
                let (mirror, step) = mirror_begin(root_jobs(s.ctx, names));
                go_on_root(s, mirror, step)
            },
            ReplyView::Names(None) => construct_abort(s, Fatal::ListFailed),
            _ => construct_abort(s, Fatal::Unexpected),
        },
        PhaseView::RootMirror { mirror } => {
            let (mirror, step) = mirror_next(mirror, reply);
            go_on_root(s, mirror, step)
        },
        PhaseView::Finished => construct_abort(s, Fatal::Unexpected),
    }
}

/// A command that stops the construction when it fails.
pub fn strict_command(action: Action) -> (command: Command)
    ensures
        command@ == strict(action@),
{
    Command { action, on_failure: OnFailure::Abort }
}

/// A warning as a command.
pub fn warn_command(notice: Notice) -> (command: Command)
    ensures
        command@ == warn(notice@),
{
    Command { action: Action::Warn(notice), on_failure: OnFailure::Ignore }
}

/// The path without its root, where it has one.
pub fn strip_root(p: &HostPath) -> (rest: HostPath)
    ensures
        rest@ == unrooted(p@),
{
    if p.is_absolute() {
        p.skip(1)
    } else {
        p.clone()
    }
}

/// The directory below `rootdir` that holds the destination `target`.
pub fn parent_below(rootdir: &HostPath, target: &HostPath) -> (dir: HostPath)
    ensures
        dir@ == explicit_parent(rootdir@, target@),
{
    let inner = match strip_root(target).parent() {
        Some(dir) => dir,
        None => HostPath::empty(),
    };
    rootdir.join(&inner)
}

/// Every mount that the policy asks for, in the order in which they are
/// made.
pub fn plan_mounts(policy: &PathConfig, dir: Option<&HostPath>) -> (mounts: Vec<Mapping>)
    ensures
        views(mounts@) == explicit_mounts(
            policy@,
            match dir {
                Some(d) => Some(d@),
                None => None,
            },
        ),
{
    let mut mounts: Vec<Mapping> = Vec::new();
    let excludes = policy.excludes();
    let mut i: usize = 0;
    while i < excludes.len()
        invariant
            i <= excludes@.len(),
            views(mounts@) == placeholder_mounts(excludes@).take(i as int),
        decreases excludes@.len() - i,
    {
        let mount = Mapping { source: dev_null_path(), target: excludes.get(i).clone() };
        proof {
            lemma_views_push(mounts@, mount);
            assert(placeholder_mounts(excludes@).take(i + 1) =~= placeholder_mounts(
                excludes@,
            ).take(i as int).push(mount@));
        }
        mounts.push(mount);
        i += 1;
    }
    assert(placeholder_mounts(excludes@).take(excludes@.len() as int) =~= placeholder_mounts(
        excludes@,
    ));
    let ghost first = views(mounts@);
    let ghost second: Seq<MappingView> = match dir {
        Some(d) => profile_mounts(d@, policy@.profile),
        None => Seq::empty(),
    };
    match dir {
        Some(d) => {
            let profile = policy.profile();
            let mut j: usize = 0;
            assert(first + second.take(0) =~= first);
            while j < profile.len()
                invariant
                    j <= profile.len(),
                    second == profile_mounts(d@, views(profile@)),
                    views(mounts@) == first + second.take(j as int),
                decreases profile.len() - j,
            {
                let mount = Mapping {
                    source: d.join(&strip_root(&profile[j].source)),
                    target: profile[j].target.clone(),
                };
                proof {
                    lemma_views_push(mounts@, mount);
                    assert(first + second.take(j + 1) =~= (first + second.take(j as int)).push(
                        mount@,
                    ));
                }
                mounts.push(mount);
                j += 1;
            }
            assert(second.take(profile.len() as int) =~= second);
        },
        None => {
            assert(first + second =~= first);
        },
    }
    let absolute = policy.absolute();
    let ghost third = views(absolute@);
    let mut k: usize = 0;
    assert(first + second + third.take(0) =~= first + second);
    while k < absolute.len()
        invariant
            k <= absolute.len(),
            third == views(absolute@),
            views(mounts@) == first + second + third.take(k as int),
        decreases absolute.len() - k,
    {
        let mount = absolute[k].clone();
        proof {
            lemma_views_push(mounts@, mount);
            assert(first + second + third.take(k + 1) =~= (first + second + third.take(
                k as int,
            )).push(mount@));
        }
        mounts.push(mount);
        k += 1;
    }
    assert(third.take(absolute.len() as int) =~= third);
    mounts
}

/// One warning for each profile mount that is left out for want of a
/// profile.
pub fn warn_missing_profile(profile: &Vec<Mapping>, user: &Vec<u8>) -> (commands: Vec<Command>)
    ensures
        views(commands@) == profile_notices(views(profile@), user@),
{
    let mut commands: Vec<Command> = Vec::new();
    let ghost all = profile_notices(views(profile@), user@);
    let mut i: usize = 0;
    while i < profile.len()
        invariant
            i <= profile.len(),
            all == profile_notices(views(profile@), user@),
            views(commands@) == all.take(i as int),
        decreases profile.len() - i,
    {
        let command = warn_command(
            Notice::MissingProfile {
                user: copy_bytes(user.as_slice()),
                source: profile[i].source.clone(),
                target: profile[i].target.clone(),
            },
        );
        proof {
            lemma_views_push(commands@, command);
            assert(all.take(i + 1) =~= all.take(i as int).push(command@));
        }
        commands.push(command);
        i += 1;
    }
    assert(all.take(profile.len() as int) =~= all);
    commands
}

/// The jobs that mirror the entries of the host's root directory, in order,
/// but for the entry `nix`.
pub fn plan_root(ctx: &RunChroot, names: &Vec<Vec<u8>>) -> (jobs: Vec<Job>)
    ensures
        views(jobs@) == root_jobs(ctx@, views(names@)),
{
    let mut jobs: Vec<Job> = Vec::new();
    let nix = nix_name_bytes();
    let mut i: usize = 0;
    assert(views(names@).take(0) =~= Seq::<Seq<u8>>::empty());
    while i < names.len()
        invariant
            i <= names.len(),
            nix@ == nix_name(),
            views(jobs@) == root_jobs(ctx@, views(names@).take(i as int)),
        decreases names.len() - i,
    {
        assert(views(names@).take(i + 1).drop_last() =~= views(names@).take(i as int));
        if !bytes_equal(names[i].as_slice(), nix.as_slice()) {
            let job = Job {
                ctx: ctx.clone(),
                entry: DirEntryOrExplicitMount::from(
                    root_dir_path(),
                    copy_bytes(names[i].as_slice()),
                ),
            };
            proof {
                lemma_views_push(jobs@, job);
            }
            jobs.push(job);
        }
        i += 1;
    }
    assert(views(names@).take(names.len() as int) =~= views(names@));
    jobs
}

/// The commands of `first` followed by those of `second`.
pub fn chain(first: Vec<Command>, second: Vec<Command>) -> (all: Vec<Command>)
    ensures
        views(all@) == views(first@) + views(second@),
{
    let mut all = first;
    let mut rest = second;
    all.append(&mut rest);
    assert(views(all@) =~= views(first@) + views(second@));
    all
}

impl RunChroot {
    /// What gives the view the store's OpenGL driver libraries, given
    /// whether the store has any.
    pub fn opengl(&self, found: bool) -> (commands: Vec<Command>)
        ensures
            views(commands@) == opengl_commands(self@, found),
    {
        let mut commands: Vec<Command> = Vec::new();
        if found {
            let source = self.nixdir().join(&opengl_source_path());
            let target = self.rootdir().join(&opengl_target_path());
            commands.push(strict_command(Action::CreateDirAll { path: target.clone() }));
            commands.push(bind_mount(source, target));
        }
        assert(views(commands@) =~= opengl_commands(self@, found));
        commands
    }

    /// The user's profile directory in the store.
    pub fn profile_dir(&self, user: &Vec<u8>) -> (dir: HostPath)
        ensures
            dir@ == profile_dir(self@.nixdir, user@),
    {
        let name = HostPath::from_bytes(user.as_slice());
        self.nixdir().join(&profiles_dir_path()).join(&name).join(&profile_link_path())
    }

    /// The commands that end the construction.
    pub fn closing(&self, launch: &Launch, excludes: &ExcludePaths) -> (commands: Vec<Command>)
        ensures
            views(commands@) == closing_commands(self@, launch@, excludes@),
    {
        let mut commands: Vec<Command> = Vec::new();
        let ghost first = unmounts(self@.rootdir, excludes@);
        let mut i: usize = 0;
        while i < excludes.len()
            invariant
                i <= excludes@.len(),
                first == unmounts(self@.rootdir, excludes@),
                views(commands@) == first.take(i as int),
            decreases excludes@.len() - i,
        {
            let command = strict_command(
                Action::Unmount { path: self.rootdir().join(&strip_root(excludes.get(i))) },
            );
            proof {
                lemma_views_push(commands@, command);
                assert(first.take(i + 1) =~= first.take(i as int).push(command@));
            }
            commands.push(command);
            i += 1;
        }
        assert(first.take(excludes@.len() as int) =~= first);
        let store = self.rootdir().join(&store_mount_path());
        let mut last: Vec<Command> = Vec::new();
        last.push(
            strict_command(Action::CreateDir { path: store.clone(), tolerate_existing: false }),
        );
        last.push(
            strict_command(
                Action::BindMount {
                    source: self.nixdir().clone(),
                    target: store,
                    flags: MountFlags { bind: true, recursive: true, private: false },
                },
            ),
        );
        last.push(strict_command(Action::ChangeRoot { path: self.rootdir().clone() }));
        last.push(strict_command(Action::ChangeDir { path: root_dir_path() }));
        last.push(
            Command {
                action: Action::WriteFile {
                    path: setgroups_file_path(),
                    content: deny_text_bytes(),
                },
                on_failure: OnFailure::Ignore,
            },
        );
        last.push(
            strict_command(
                Action::WriteFile { path: uid_map_file_path(), content: id_map_line(launch.uid) },
            ),
        );
        last.push(
            strict_command(
                Action::WriteFile { path: gid_map_file_path(), content: id_map_line(launch.gid) },
            ),
        );
        last.push(strict_command(Action::ChangeDir { path: launch.cwd.clone() }));
        last.push(
            Command {
                action: Action::Exec {
                    program: copy_bytes(launch.program.as_slice()),
                    args: copy_names(&launch.args),
                    variable: conf_dir_name_bytes(),
                    value: conf_dir_value_bytes(),
                },
                on_failure: OnFailure::Exit,
            },
        );
        let all = chain(commands, last);
        assert(views(all@) =~= closing_commands(self@, launch@, excludes@));
        all
    }

    /// Begins the construction of the view for `cmd` with `args`, run for
    /// the user and from the directory that `launch` names, under the mount
    /// policy `path_config` if there is one. A policy that cannot be
    /// followed is refused before anything is done.
    pub fn run_chroot(
        &self,
        cmd: Vec<u8>,
        args: Vec<Vec<u8>>,
        path_config: Option<PathConfig>,
        uid: u32,
        gid: u32,
        cwd: HostPath,
    ) -> (start: Result<(Construction, Step), PolicyError>)
        ensures
            match start {
                Ok((state, step)) => {
                    &&& (state@, step@) == construct_start(
                        self@,
                        LaunchView { uid, gid, cwd: cwd@, program: cmd@, args: views(args@) },
                        match path_config {
                            Some(c) => Some(c@),
                            None => None,
                        },
                    )
                    &&& (path_config matches Some(c) ==> c@.valid())
                },
                Err(e) => path_config matches Some(c) && c@.fault() == Some(e@) && !c@.valid(),
            },
    {
        let has_policy = path_config.is_some();
        let policy = match path_config {
            Some(c) => {
                match c.validate() {
                    Ok(_) => {},
                    Err(e) => {
                        return Err(e);
                    },
                }
                c
            },
            None => PathConfig::new(ExcludePaths::new()),
        };
        let question = Query::IsDir(self.nixdir().join(&opengl_source_path()));
        let mut commands: Vec<Command> = Vec::new();
        commands.push(strict_command(Action::Unshare));
        let state = Construction {
            ctx: self.clone(),
            launch: Launch { uid, gid, cwd, program: cmd, args },
            policy,
            has_policy,
            phase: Phase::OpenGl,
        };
        let step = Step { commands, next: Next::Ask(question) };
        assert(step@.commands =~= seq![strict(ActionView::Unshare)]);
        Ok((state, step))
    }
}

impl Construction {
    /// The same construction in the phase `phase`.
    fn enter(self, phase: Phase) -> (state: Construction)
        ensures
            state@ == (ConstructionView { phase: phase@, ..self@ }),
    {
        Construction {
            ctx: self.ctx,
            launch: self.launch,
            policy: self.policy,
            has_policy: self.has_policy,
            phase,
        }
    }

    /// Stops for `reason`.
    fn abort(self, reason: Fatal) -> (out: (Construction, Step))
        ensures
            (out.0@, out.1@) == construct_abort(self@, reason),
    {
        let step = Step { commands: Vec::new(), next: Next::Abort(reason) };
        assert(step@.commands =~= Seq::<CommandView>::empty());
        (self.enter(Phase::Finished), step)
    }

    /// Gives `commands` and turns to the host's root directory.
    fn to_root(self, commands: Vec<Command>) -> (out: (Construction, Step))
        ensures
            (out.0@, out.1@) == to_root(self@, views(commands@)),
    {
        let step = Step { commands, next: Next::Ask(Query::List(root_dir_path())) };
        (self.enter(Phase::RootList), step)
    }

    /// Gives `commands` and turns to the first of `mounts`.
    fn next_mount(self, mounts: Vec<Mapping>, commands: Vec<Command>) -> (out: (
        Construction,
        Step,
    ))
        ensures
            (out.0@, out.1@) == next_mount(self@, views(mounts@), views(commands@)),
    {
        let mut rest = mounts;
        if rest.len() == 0 {
            return self.to_root(commands);
        }
        let ghost before = rest@;
        let mount = rest.remove(0);
        assert(views(rest@) =~= views(before).skip(1));
        let (resolution, _) = self.ctx.resolve_nix_path(mount.source.clone(), true);
        let step = Step { commands, next: Next::Ask(Query::IsSymlink(mount.source.clone())) };
        (self.enter(Phase::Source { resolution, mount, rest }), step)
    }

    /// Goes on behind a step of the engine that makes an explicit mount.
    fn go_on_explicit(
        self,
        mirror: Mirror,
        step: Step,
        rest: Vec<Mapping>,
        before: Vec<Command>,
    ) -> (out: (Construction, Step))
        ensures
            (out.0@, out.1@) == go_on_explicit(
                self@,
                mirror@,
                step@,
                views(rest@),
                views(before@),
            ),
    {
        let commands = chain(before, step.commands);
        match step.next {
            Next::Ask(q) => (
                self.enter(Phase::Mount { mirror, rest }),
                Step { commands, next: Next::Ask(q) },
            ),
            Next::Done => self.next_mount(rest, commands),
            Next::Abort(reason) => (
                self.enter(Phase::Finished),
                Step { commands, next: Next::Abort(reason) },
            ),
        }
    }

    /// Goes on behind a step of the engine that mirrors the root.
    fn go_on_root(self, mirror: Mirror, step: Step) -> (out: (Construction, Step))
        ensures
            (out.0@, out.1@) == go_on_root(self@, mirror@, step@),
    {
        match step.next {
            Next::Ask(q) => (
                self.enter(Phase::RootMirror { mirror }),
                Step { commands: step.commands, next: Next::Ask(q) },
            ),
            Next::Done => {
                let closing = self.ctx.closing(&self.launch, self.policy.excludes());
                let commands = chain(step.commands, closing);
                (self.enter(Phase::Finished), Step { commands, next: Next::Done })
            },
            Next::Abort(reason) => (
                self.enter(Phase::Finished),
                Step { commands: step.commands, next: Next::Abort(reason) },
            ),
        }
    }

    /// Whether nothing is left to do.
    pub fn is_finished(&self) -> (yes: bool)
        ensures
            yes == (self@.phase == PhaseView::Finished),
    {
        match self.phase {
            Phase::Finished => true,
            _ => false,
        }
    }

    /// Takes the answer to the question last asked and says how the
    /// construction goes on.
    pub fn step(self, reply: Reply) -> (out: (Construction, Step))
        ensures
            (out.0@, out.1@) == construct_next(self@, reply@),
    {
        let Construction { ctx, launch, policy, has_policy, phase } = self;
        let base = Construction { ctx, launch, policy, has_policy, phase: Phase::Finished };
        match phase {
            Phase::OpenGl => match reply {
                Reply::Flag(found) => {
                    let commands = base.ctx.opengl(found);
                    if base.has_policy {
                        let step = Step {
                            commands,
                            next: Next::Ask(Query::UserName(base.launch.uid)),
                        };
                        (base.enter(Phase::User), step)
                    } else {
                        base.to_root(commands)
                    }
                },
                _ => base.abort(Fatal::Unexpected),
            },
            Phase::User => match reply {
                Reply::UserName(Some(user)) => {
                    let dir = base.ctx.profile_dir(&user);
                    let (resolution, _) = base.ctx.resolve_nix_path(dir.clone(), false);
                    let step = ask_step(Query::IsSymlink(dir));
                    (base.enter(Phase::Profile { user, resolution }), step)
                },
                Reply::UserName(None) => base.abort(Fatal::UnknownUser),
                _ => base.abort(Fatal::Unexpected),
            },
            Phase::Profile { user, resolution } => {
                let (resolution, out) = resolution.step(reply);
                match out {
                    Resolved::Ask(q) => (
                        base.enter(Phase::Profile { user, resolution }),
                        ask_step(q),
                    ),
                    Resolved::Done(Ok(dir)) => {
                        let mounts = plan_mounts(&base.policy, Some(&dir));
                        let commands: Vec<Command> = Vec::new();
                        assert(views(commands@) =~= Seq::<CommandView>::empty());
                        base.next_mount(mounts, commands)
                    },
                    Resolved::Done(Err(_)) => {
                        let mounts = plan_mounts(&base.policy, None);
                        let commands = warn_missing_profile(base.policy.profile(), &user);
                        base.next_mount(mounts, commands)
                    },
                }
            },
            Phase::Source { resolution, mount, rest } => {
                let (resolution, out) = resolution.step(reply);
                match out {
                    Resolved::Ask(q) => (
                        base.enter(Phase::Source { resolution, mount, rest }),
                        ask_step(q),
                    ),
                    Resolved::Done(Ok(src)) => {
                        let parent = parent_below(base.ctx.rootdir(), &mount.target);
                        let mut before: Vec<Command> = Vec::new();
                        before.push(strict_command(Action::CreateDirAll { path: parent.clone() }));
                        assert(views(before@) =~= seq![
                            strict(ActionView::CreateDirAll { path: parent@ }),
                        ]);
                        let entry = DirEntryOrExplicitMount::explicit_mount_with_dest_file_name(
                            src,
                            &mount.target,
                        );
                        let (mirror, step) = base.ctx.with_rootdir(parent).bind_mount_entry(entry);
                        base.go_on_explicit(mirror, step, rest, before)
                    },
                    Resolved::Done(Err(_)) => {
                        let mut commands: Vec<Command> = Vec::new();
                        commands.push(warn_command(Notice::MissingSource { source: mount.source }));
                        assert(views(commands@) =~= seq![
                            warn(NoticeView::MissingSource { source: mount@.source }),
                        ]);
                        base.next_mount(rest, commands)
                    },
                }
            },
            Phase::Mount { mirror, rest } => {
                let (mirror, step) = mirror.step(reply);
                let before: Vec<Command> = Vec::new();
                assert(views(before@) =~= Seq::<CommandView>::empty());
                assert(views(before@) + step@.commands =~= step@.commands);
                base.go_on_explicit(mirror, step, rest, before)
            },
            Phase::RootList => match reply {
                Reply::Names(Some(names)) => {
                    let jobs = plan_root(&base.ctx, &names);
                    let (mirror, step) = Mirror::begin(jobs);
                    base.go_on_root(mirror, step)
                },
                Reply::Names(None) => base.abort(Fatal::ListFailed),
                _ => base.abort(Fatal::Unexpected),
            },
            Phase::RootMirror { mirror } => {
                let (mirror, step) = mirror.step(reply);
                base.go_on_root(mirror, step)
            },
            Phase::Finished => base.abort(Fatal::Unexpected),
        }
    }
}

} // verus!
