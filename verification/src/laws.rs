//! What holds of the engines whatever the host answers.

use crate::chroot::RunChrootView;
use crate::constructed::{constructed, mounted, rooted};
use crate::mirrored::{located, mirror_found, mirror_list, mirror_one, Outcome, World};
use crate::config::{MappingView, PathConfigView};
use crate::construct::{
    closing_commands, construct_next, construct_start, explicit_job, explicit_mounts,
    go_on_root, no_policy, opengl_commands, profile_dir, profile_notices, root_job, root_jobs,
    unrooted, warn, ConstructionView, LaunchView, PhaseView,
};
use crate::host::{
    mirror_flags, overlay_flags, ActionView, CommandView, NodeKind, NoticeView, OnFailure,
    QueryView, ReplyView, StepView,
};
use crate::identity::{decimal, SPACE, ZERO};
use crate::mirror::{
    bind_mount_command, directory_commands, file_commands, mirror_begin, mirror_finish,
    mirror_next, strict, symlink_commands, treated_as, JobView, MirrorView, StageView,
};
use crate::mount::MountView;
use crate::names::{
    conf_dir_name, conf_dir_value, dev_null, gid_map_file, nix_name, nix_root, opengl_source,
    root_dir, setgroups_file, store_mount, uid_map_file,
};
use crate::path::{
    counts, cur_part, is_absolute, is_name, is_normal, joined, kept, name_of, parent_of, parsed,
    pieces, rendered, root_part, stripped, well_formed, SEPARATOR,
};
use crate::resolve::{resolve_next, resolve_start, ResolveError, ResolvedView};
use crate::meaning::{resolve_run, resolved, Host};
use crate::wait::{
    exit_status, parent_commands, release, stop_commands, wait_decision, ChildSignal,
    ParentActionView, ParentCommandView, WaitNext, WaitEvent, WaitStepView, WaiterView,
};
use vstd::prelude::*;

verus! {

/// An entry with a normal name is mirrored under that name: its place is
/// the directory mirrored into followed by the name, so the last component
/// of its place is the entry's own file name.
pub proof fn law_entry_keeps_its_name(job: JobView, name: Seq<u8>)
    requires
        job.entry.file_name() == Some(name),
        is_normal(name),
    ensures
        job.mount_point() == job.ctx.rootdir.push(name),
        name_of(job.mount_point()) == Some(name),
{
    assert(seq![name][0] == name);
    assert(name != root_part()) by {
        assert(root_part()[0] == SEPARATOR);
        assert(root_part().contains(SEPARATOR));
    }
    assert(job.mount_point() =~= job.ctx.rootdir.push(name));
}

/// Every entry of the host's root directory other than `nix` gets a job
/// that mirrors it into the new root under its own name, and `nix` gets
/// none.
pub proof fn law_root_entries_mirrored(ctx: RunChrootView, names: Seq<Seq<u8>>)
    ensures
        forall|i: int|
            0 <= i < names.len() && names[i] != nix_name() ==> root_jobs(ctx, names).contains(
                #[trigger] root_job(ctx, names[i]),
            ),
        forall|j: int|
            0 <= j < root_jobs(ctx, names).len() ==> (exists|i: int|
                0 <= i < names.len() && names[i] != nix_name() && #[trigger] root_jobs(
                    ctx,
                    names,
                )[j] == root_job(ctx, names[i])),
    decreases names.len(),
{
    if names.len() > 0 {
        let shorter = names.drop_last();
        law_root_entries_mirrored(ctx, shorter);
        let before = root_jobs(ctx, shorter);
        let all = root_jobs(ctx, names);
        assert forall|i: int| 0 <= i < names.len() && names[i] != nix_name() implies all.contains(
            #[trigger] root_job(ctx, names[i]),
        ) by {
            if i < names.len() - 1 {
                assert(shorter[i] == names[i]);
                let k = choose|k: int|
                    0 <= k < before.len() && before[k] == root_job(ctx, names[i]);
                assert(all[k] == root_job(ctx, names[i]));
            } else {
                assert(all[all.len() - 1] == root_job(ctx, names[i]));
            }
        }
        assert forall|j: int| 0 <= j < all.len() implies (exists|i: int|
            0 <= i < names.len() && names[i] != nix_name() && #[trigger] all[j] == root_job(
                ctx,
                names[i],
            )) by {
            if j < before.len() {
                let i = choose|i: int|
                    0 <= i < shorter.len() && shorter[i] != nix_name() && before[j] == root_job(
                        ctx,
                        shorter[i],
                    );
                assert(names[i] == shorter[i]);
                assert(all[j] == root_job(ctx, names[i]));
            } else {
                assert(all[j] == root_job(ctx, names[names.len() - 1]));
            }
        }
    }
}

/// An entry whose place is free is put there: the first command for a
/// directory creates a directory at its place, for a file a file, for a
/// symbolic link a link; and what is mounted over a directory or file is
/// the entry's own source.
pub proof fn law_free_place_is_filled(job: JobView, target: Seq<Seq<u8>>)
    ensures
        directory_commands(job, false)[0].action == (ActionView::CreateDir {
            path: job.mount_point(),
            tolerate_existing: true,
        }),
        directory_commands(job, false)[1] == bind_mount_command(
            job.entry.path(),
            job.mount_point(),
        ),
        file_commands(job, false)[0].action == (ActionView::CreateFile {
            path: job.mount_point(),
        }),
        file_commands(job, false)[1] == bind_mount_command(job.entry.path(), job.mount_point()),
        symlink_commands(job, target)[0].action == (ActionView::Symlink {
            target,
            link: job.mount_point(),
        }),
{
}

/// An entry whose place is taken changes nothing there: a file and a
/// symbolic link are left out, and so is a directory whose place is taken
/// by something else than a directory. The engine turns to the next entry
/// without a command.
pub proof fn law_taken_place_is_kept(queue: Seq<JobView>, job: JobView)
    ensures
        mirror_next(
            MirrorView { queue, stage: StageView::FileExists { job } },
            ReplyView::Flag(true),
        ) == mirror_finish(queue, Seq::empty()),
        mirror_next(
            MirrorView { queue, stage: StageView::LinkExists { job } },
            ReplyView::Flag(true),
        ) == mirror_finish(queue, Seq::empty()),
        mirror_next(
            MirrorView { queue, stage: StageView::DirIsDir { job } },
            ReplyView::Flag(false),
        ) == mirror_finish(queue, Seq::empty()),
        mirror_finish(queue, Seq::empty()).1.commands.len() == 0,
{
}

/// A directory whose place is taken by a directory is merged into it: its
/// children are mirrored into that directory, each under its own name, the
/// first child first, before anything else that was waiting.
pub proof fn law_directories_merge(queue: Seq<JobView>, job: JobView, names: Seq<Seq<u8>>)
    ensures
        mirror_next(
            MirrorView { queue, stage: StageView::Listing { job } },
            ReplyView::Names(Some(names)),
        ) == mirror_begin(job.children(names) + queue),
        forall|i: int|
            0 <= i < names.len() ==> (#[trigger] job.children(names)[i]).ctx.rootdir
                == job.mount_point() && job.children(names)[i].entry == (MountView::DirEntry {
                dir: job.entry.path(),
                name: names[i],
            }),
{
    let (m, step) = mirror_begin(job.children(names) + queue);
    assert(step.commands =~= Seq::<CommandView>::empty());
}

/// Every mount that mirrors an entry is a bind mount with the flags bind,
/// recursive and private, and its failure does not stop the construction.
pub proof fn law_mirror_mounts_are_private(m: MirrorView, reply: ReplyView, i: int)
    requires
        0 <= i < mirror_next(m, reply).1.commands.len(),
        mirror_next(m, reply).1.commands[i].action is BindMount,
    ensures
        mirror_next(m, reply).1.commands[i].action->BindMount_flags == mirror_flags(),
        mirror_next(m, reply).1.commands[i].on_failure == OnFailure::Report,
{
}

/// `/dev/null` is mirrored as a file, whatever the host says it is, unless
/// the host says it is a directory.
pub proof fn law_dev_null_is_a_file(kind: NodeKind)
    requires
        kind != NodeKind::Directory,
    ensures
        treated_as(kind, dev_null()) == NodeKind::File,
{
}

/// The store is laid over `nix` in the new root, by a bind mount with the
/// flags bind and recursive only, whose failure stops the construction. It
/// is made behind every unmount and before the root is changed.
pub proof fn law_store_overlay(
    ctx: RunChrootView,
    launch: LaunchView,
    excludes: Seq<Seq<Seq<u8>>>,
)
    ensures
        ({
            let closing = closing_commands(ctx, launch, excludes);
            let n = excludes.len() as int;
            &&& closing.len() == n + 9
            &&& closing[n] == strict(
                ActionView::CreateDir {
                    path: joined(ctx.rootdir, store_mount()),
                    tolerate_existing: false,
                },
            )
            &&& closing[n + 1] == strict(
                ActionView::BindMount {
                    source: ctx.nixdir,
                    target: joined(ctx.rootdir, store_mount()),
                    flags: overlay_flags(),
                },
            )
            &&& closing[n + 2] == strict(ActionView::ChangeRoot { path: ctx.rootdir })
            &&& closing[n + 3] == strict(ActionView::ChangeDir { path: root_dir() })
            &&& forall|i: int| 0 <= i < n ==> (#[trigger] closing[i]).action is Unmount
        }),
{
}

/// Every excluded destination is reserved and released: a mount of
/// `/dev/null` at it stands among the explicit mounts, before every mount
/// of the profile and every absolute mount, and the closing commands
/// unmount it below the new root before the store is laid over `nix`.
pub proof fn law_exclusion(
    ctx: RunChrootView,
    launch: LaunchView,
    policy: PathConfigView,
    dir: Option<Seq<Seq<u8>>>,
    i: int,
)
    requires
        0 <= i < policy.excludes.len(),
    ensures
        explicit_mounts(policy, dir)[i] == (MappingView {
            source: dev_null(),
            target: policy.excludes[i],
        }),
        closing_commands(ctx, launch, policy.excludes)[i] == strict(
            ActionView::Unmount { path: joined(ctx.rootdir, unrooted(policy.excludes[i])) },
        ),
        forall|j: int|
            policy.excludes.len() <= j < explicit_mounts(policy, dir).len() ==> {
                ||| policy.absolute.contains(#[trigger] explicit_mounts(policy, dir)[j])
                ||| (dir is Some && exists|k: int|
                    0 <= k < policy.profile.len() && explicit_mounts(policy, dir)[j].target
                        == (#[trigger] policy.profile[k]).target)
            },
{
    let mounts = explicit_mounts(policy, dir);
    let n = policy.excludes.len() as int;
    assert forall|j: int| n <= j < mounts.len() implies {
        ||| policy.absolute.contains(#[trigger] mounts[j])
        ||| (dir is Some && exists|k: int|
            0 <= k < policy.profile.len() && mounts[j].target == (
            #[trigger] policy.profile[k]).target)
    } by {
        let middle: int = match dir {
            Some(d) => policy.profile.len() as int,
            None => 0,
        };
        if j < n + middle {
            assert(mounts[j].target == policy.profile[j - n].target);
        } else {
            assert(mounts[j] == policy.absolute[j - n - middle]);
        }
    }
}

/// A symbolic link whose target is absolute and does not lie under `/nix`
/// resolves, where the resolution stops at the first target outside `/nix`,
/// to that very target: the same path, component for component.
pub proof fn law_symlink_verbatim(
    host: Host,
    store: Seq<Seq<u8>>,
    link: Seq<Seq<u8>>,
    target: Seq<Seq<u8>>,
)
    requires
        host.links.dom().contains(link),
        host.links[link] == Some(target),
        is_absolute(target),
        !nix_root().is_prefix_of(target),
    ensures
        resolved(host, store, link, true, 1) == Some(Ok::<Seq<Seq<u8>>, ResolveError>(target)),
        resolve_run(host, resolve_start(store, link, true), 2) == Some(
            Ok::<Seq<Seq<u8>>, ResolveError>(target),
        ),
{
    reveal_with_fuel(resolve_run, 3);
}

/// A symbolic link whose target is relative and, taken from the directory
/// of the link, does not lie under `/nix` resolves, where the resolution
/// stops at the first target outside `/nix`, to the target taken from that
/// directory.
pub proof fn law_symlink_relative(
    host: Host,
    store: Seq<Seq<u8>>,
    link: Seq<Seq<u8>>,
    target: Seq<Seq<u8>>,
)
    requires
        host.links.dom().contains(link),
        host.links[link] == Some(target),
        !is_absolute(target),
        parent_of(link) is Some,
        !nix_root().is_prefix_of(joined(parent_of(link).unwrap(), target)),
    ensures
        resolved(host, store, link, true, 1) == Some(
            Ok::<Seq<Seq<u8>>, ResolveError>(joined(parent_of(link).unwrap(), target)),
        ),
        resolve_run(host, resolve_start(store, link, true), 2) == Some(
            Ok::<Seq<Seq<u8>>, ResolveError>(joined(parent_of(link).unwrap(), target)),
        ),
{
    reveal_with_fuel(resolve_run, 3);
}

/// A symbolic link whose target is `/nix` followed by `rest` is followed
/// into the store, whether the resolution stops at targets outside `/nix`
/// or not: the resolution goes on with the store directory followed by
/// `rest`, and the link resolves to what that path resolves to. Where that
/// path exists and is no link, it is the result; it begins with the store
/// directory and `rest` is what follows.
pub proof fn law_symlink_into_store(
    host: Host,
    store: Seq<Seq<u8>>,
    link: Seq<Seq<u8>>,
    rest: Seq<Seq<u8>>,
    stop: bool,
)
    requires
        host.links.dom().contains(link),
        host.links[link] == Some(nix_root() + rest),
        well_formed(nix_root() + rest),
        is_absolute(store),
    ensures
        resolve_next(
            resolve_next(
                resolve_start(store, link, stop).0,
                host.answer(QueryView::IsSymlink(link)),
            ).0,
            host.answer(QueryView::ReadLink(link)),
        ).1 == ResolvedView::Ask(QueryView::IsSymlink(store + rest)),
        forall|depth: nat|
            depth > 0 ==> #[trigger] resolved(host, store, link, stop, depth) == resolved(
                host,
                store,
                store + rest,
                stop,
                (depth - 1) as nat,
            ),
        !host.links.dom().contains(store + rest) && host.present.contains(store + rest)
            ==> resolve_run(host, resolve_start(store, link, stop), 4) == Some(
            Ok::<Seq<Seq<u8>>, ResolveError>(store + rest),
        ) && resolved(host, store, link, stop, 2) == Some(
            Ok::<Seq<Seq<u8>>, ResolveError>(store + rest),
        ),
        store.is_prefix_of(store + rest),
        stripped(store + rest, store) == Some(rest),
{
    let target = nix_root() + rest;
    assert(target[0] == root_part());
    assert(root_part() != cur_part()) by {
        assert(root_part()[0] == SEPARATOR);
    }
    if rest.len() > 0 {
        assert(target[2] == rest[0]);
    }
    assert(nix_root().is_prefix_of(target));
    assert(target.skip(nix_root().len() as int) =~= rest);
    assert(joined(store, rest) =~= store + rest);
    assert((store + rest).skip(store.len() as int) =~= rest);
    reveal_with_fuel(resolve_run, 5);
    reveal_with_fuel(resolved, 3);
}

/// The value of a string of decimal digits.
pub open spec fn decimal_value(digits: Seq<u8>) -> nat
    decreases digits.len(),
{
    if digits.len() == 0 {
        0
    } else {
        (decimal_value(digits.drop_last()) * 10 + (digits.last() - ZERO)) as nat
    }
}

/// The digits of a number are digits, and their value is the number.
pub proof fn law_decimal(n: nat)
    ensures
        decimal(n).len() > 0,
        forall|i: int| 0 <= i < decimal(n).len() ==> ZERO <= #[trigger] decimal(n)[i] <= ZERO + 9,
        decimal_value(decimal(n)) == n,
    decreases n,
{
    if n < 10 {
        assert(decimal(n).drop_last() =~= Seq::<u8>::empty());
        assert(decimal_value(decimal(n).drop_last()) == 0);
    } else {
        law_decimal(n / 10);
        assert(decimal(n).drop_last() =~= decimal(n / 10));
    }
}

/// The identity is mapped once the root is changed and before the program
/// starts: `deny` is written to the `setgroups` file, which may fail; then
/// the one line `<uid> <uid> 1` to the user map and `<gid> <gid> 1` to the
/// group map, which must not.
pub proof fn law_identity_map(
    ctx: RunChrootView,
    launch: LaunchView,
    excludes: Seq<Seq<Seq<u8>>>,
)
    ensures
        ({
            let closing = closing_commands(ctx, launch, excludes);
            let n = excludes.len() as int;
            &&& closing[n + 2].action is ChangeRoot
            &&& closing[n + 4].action is WriteFile
            &&& closing[n + 4].action->WriteFile_path == setgroups_file()
            &&& closing[n + 4].on_failure == OnFailure::Ignore
            &&& closing[n + 5] == strict(
                ActionView::WriteFile {
                    path: uid_map_file(),
                    content: decimal(launch.uid as nat) + seq![SPACE] + decimal(launch.uid as nat)
                        + seq![SPACE, (ZERO + 1) as u8],
                },
            )
            &&& closing[n + 6] == strict(
                ActionView::WriteFile {
                    path: gid_map_file(),
                    content: decimal(launch.gid as nat) + seq![SPACE] + decimal(launch.gid as nat)
                        + seq![SPACE, (ZERO + 1) as u8],
                },
            )
            &&& closing[n + 8].action is Exec
        }),
{
}

/// The last command of a construction makes the process the program that
/// was asked for, with its arguments, and with `NIX_CONF_DIR` set to
/// `/nix/etc/nix`; before it the process goes back to the directory that it
/// started in.
pub proof fn law_environment(ctx: RunChrootView, launch: LaunchView, excludes: Seq<Seq<Seq<u8>>>)
    ensures
        closing_commands(ctx, launch, excludes).last().action == (ActionView::Exec {
            program: launch.program,
            args: launch.args,
            variable: conf_dir_name(),
            value: conf_dir_value(),
        }),
        closing_commands(ctx, launch, excludes).last().on_failure == OnFailure::Exit,
        closing_commands(ctx, launch, excludes)[excludes.len() as int + 7] == strict(
            ActionView::ChangeDir { path: launch.cwd },
        ),
{
}

/// A construction gives its closing commands exactly when the host's root
/// directory is mirrored to the end, behind the last commands of the
/// mirroring, and is finished then.
pub proof fn law_closing_follows_root(s: ConstructionView, mirror: MirrorView, step: StepView)
    ensures
        step.next is Done ==> go_on_root(s, mirror, step).1.commands == step.commands
            + closing_commands(s.ctx, s.launch, s.policy.excludes) && go_on_root(
            s,
            mirror,
            step,
        ).0.phase == PhaseView::Finished,
        !(step.next is Done) ==> go_on_root(s, mirror, step).1.commands == step.commands,
{
}

/// The first command of every construction leaves the namespaces, and
/// nothing is asked of the host before.
pub proof fn law_unshare_first(
    ctx: RunChrootView,
    launch: LaunchView,
    policy: Option<PathConfigView>,
)
    ensures
        construct_start(ctx, launch, policy).1.commands == seq![strict(ActionView::Unshare)],
{
}

/// Whether the event leaves the parent waiting: the child was stopped by
/// the stop signal, or ended by a signal that the parent lives through.
pub open spec fn keeps_waiting(event: WaitEvent) -> bool {
    event is Signaled || event == WaitEvent::Stopped(ChildSignal::Stop)
}

/// While the child is only stopped by the stop signal or struck by
/// signals, the parent goes on waiting; once the child has left with a
/// status, the parent leaves with the same status.
pub proof fn law_exit_status(w: WaiterView, before: Seq<WaitEvent>, status: i32)
    requires
        forall|i: int| 0 <= i < before.len() ==> keeps_waiting(#[trigger] before[i]),
    ensures
        exit_status(w, before).is_none(),
        exit_status(w, before.push(WaitEvent::Exited(status))) == Some(status),
    decreases before.len(),
{
    if before.len() == 0 {
        assert(before.push(WaitEvent::Exited(status)).skip(1) =~= Seq::<WaitEvent>::empty());
    } else {
        let rest = before.skip(1);
        assert forall|i: int| 0 <= i < rest.len() implies keeps_waiting(#[trigger] rest[i]) by {
            assert(rest[i] == before[i + 1]);
        }
        assert(keeps_waiting(before[0]));
        let next = wait_decision(w, before[0]).0;
        law_exit_status(next, rest, status);
        assert(before.push(WaitEvent::Exited(status)).skip(1) =~= rest.push(
            WaitEvent::Exited(status),
        ));
    }
}

/// A signal that ends the child is sent to the parent, the same one, once
/// the scratch root is released, and must not fail. A stop of the child by
/// the stop signal stops the parent, which lets the child run again when it
/// runs again itself, and changes nothing else. Anything else but the
/// child's exit, a stop by another signal too, makes the parent release the
/// scratch root and leave with status 1.
pub proof fn law_signals_passed_on(w: WaiterView, signal: i32)
    ensures
        wait_decision(w, WaitEvent::Signaled(ChildSignal::Other(signal))).1 == (WaitStepView {
            commands: seq![
                release(w),
                ParentCommandView {
                    action: ParentActionView::Raise(signal),
                    on_failure: OnFailure::Abort,
                },
            ],
            next: WaitNext::WaitAgain,
        }),
        wait_decision(w, WaitEvent::Stopped(ChildSignal::Stop)) == (
            w,
            WaitStepView { commands: stop_commands(), next: WaitNext::WaitAgain },
        ),
        wait_decision(w, WaitEvent::Stopped(ChildSignal::Other(signal))).1 == (WaitStepView {
            commands: seq![release(w)],
            next: WaitNext::Leave(1),
        }),
        wait_decision(w, WaitEvent::Other).1 == (WaitStepView {
            commands: seq![release(w)],
            next: WaitNext::Leave(1),
        }),
        wait_decision(w, WaitEvent::Failed).1 == (WaitStepView {
            commands: seq![release(w)],
            next: WaitNext::Leave(1),
        }),
{
    assert(seq![release(w)] + Seq::<ParentCommandView>::empty() =~= seq![release(w)]);
    assert(seq![release(w)] + seq![
        ParentCommandView {
            action: ParentActionView::Raise(signal),
            on_failure: OnFailure::Abort,
        },
    ] =~= seq![
        release(w),
        ParentCommandView {
            action: ParentActionView::Raise(signal),
            on_failure: OnFailure::Abort,
        },
    ]);
}

/// Whether the command removes the directory `root`.
pub open spec fn removes(command: ParentCommandView, root: Seq<Seq<u8>>) -> bool {
    command.action matches ParentActionView::RemoveTree { path, .. } && path == root
}

/// The scratch root is released on every way out of the parent: the step
/// with which the parent leaves, and the step in which it sends itself the
/// signal that ended the child, begin with the removal of the scratch root,
/// and a removal that fails stops the parent. A removal finds the scratch
/// root gone without failing only where the parent has given the removal
/// before.
pub proof fn law_scratch_root_released(w: WaiterView, event: WaitEvent)
    ensures
        ({
            let (next, step) = wait_decision(w, event);
            let leaves = step.next is Leave || exists|i: int|
                0 <= i < step.commands.len() && (#[trigger] step.commands[i]).action is Raise;
            &&& next.rootdir == w.rootdir
            &&& leaves ==> step.commands.len() > 0 && step.commands[0] == release(w)
                && next.released
            &&& !leaves ==> next == w && step.commands == stop_commands()
            &&& release(w).on_failure == OnFailure::Abort
            &&& release(w).action == (ParentActionView::RemoveTree {
                path: w.rootdir,
                tolerate_missing: w.released,
            })
        }),
{
    let (next, step) = wait_decision(w, event);
    if step.commands == stop_commands() {
        assert forall|i: int| 0 <= i < step.commands.len() implies !((
        #[trigger] step.commands[i]).action is Raise) by {}
    } else if event is Signaled {
        assert(step.commands[1].action is Raise);
    }
}

/// Over any run of events, the parent never sends itself a signal before
/// it has removed the scratch root.
pub proof fn law_released_before_signal(w: WaiterView, events: Seq<WaitEvent>, i: int)
    requires
        0 <= i < parent_commands(w, events).len(),
        parent_commands(w, events)[i].action is Raise,
    ensures
        exists|j: int| 0 <= j < i && removes(#[trigger] parent_commands(w, events)[j], w.rootdir),
    decreases events.len(),
{
    let all = parent_commands(w, events);
    let (next, step) = wait_decision(w, events[0]);
    law_scratch_root_released(w, events[0]);
    if i < step.commands.len() {
        assert(all[i] == step.commands[i]);
        assert(step.commands[0] == release(w));
        assert(all[0] == step.commands[0]);
        assert(removes(all[0], w.rootdir));
        assert(i != 0);
    } else {
        let rest = parent_commands(next, events.skip(1));
        let n = step.commands.len() as int;
        assert(all[i] == rest[i - n]);
        law_released_before_signal(next, events.skip(1), i - n);
        let j = choose|j: int| 0 <= j < i - n && removes(#[trigger] rest[j], next.rootdir);
        assert(all[j + n] == rest[j]);
        assert(removes(all[j + n], w.rootdir));
    }
}

/// Over any run of events that makes the parent leave, the last thing the
/// parent is given to do is to remove the scratch root.
pub proof fn law_released_on_leaving(w: WaiterView, events: Seq<WaitEvent>)
    requires
        exit_status(w, events) is Some,
    ensures
        parent_commands(w, events).len() > 0,
        removes(parent_commands(w, events).last(), w.rootdir),
        parent_commands(w, events).last().on_failure == OnFailure::Abort,
    decreases events.len(),
{
    let (next, step) = wait_decision(w, events[0]);
    law_scratch_root_released(w, events[0]);
    match step.next {
        WaitNext::Leave(_) => {
            assert(step.commands =~= seq![release(w)]);
        },
        WaitNext::WaitAgain => {
            law_released_on_leaving(next, events.skip(1));
        },
    }
}

/// Over any run of events, a removal of the scratch root finds it gone
/// without failing exactly where the parent was given a removal before:
/// the first removal must find the scratch root and remove it.
pub proof fn law_first_removal_is_strict(w: WaiterView, events: Seq<WaitEvent>, i: int)
    requires
        0 <= i < parent_commands(w, events).len(),
        parent_commands(w, events)[i].action is RemoveTree,
    ensures
        parent_commands(w, events)[i].action->RemoveTree_path == w.rootdir,
        parent_commands(w, events)[i].action->RemoveTree_tolerate_missing == (w.released
            || exists|j: int|
            0 <= j < i && (#[trigger] parent_commands(w, events)[j]).action is RemoveTree),
    decreases events.len(),
{
    let all = parent_commands(w, events);
    let (next, step) = wait_decision(w, events[0]);
    law_scratch_root_released(w, events[0]);
    let n = step.commands.len() as int;
    if i < n {
        assert(all[i] == step.commands[i]);
        assert(i == 0) by {
            if step.commands == stop_commands() {
            } else if events[0] is Signaled {
                assert(step.commands[1].action is Raise);
            }
        }
    } else {
        let rest = parent_commands(next, events.skip(1));
        assert(all[i] == rest[i - n]);
        law_first_removal_is_strict(next, events.skip(1), i - n);
        if next.released && !w.released {
            assert(all[0] == step.commands[0]);
            assert(all[0].action is RemoveTree);
        }
        if exists|j: int| 0 <= j < i - n && (#[trigger] rest[j]).action is RemoveTree {
            let j = choose|j: int| 0 <= j < i - n && (#[trigger] rest[j]).action is RemoveTree;
            assert(all[j + n] == rest[j]);
            assert(all[j + n].action is RemoveTree);
        }
        if exists|j: int| 0 <= j < i && (#[trigger] all[j]).action is RemoveTree {
            let j = choose|j: int| 0 <= j < i && (#[trigger] all[j]).action is RemoveTree;
            if j < n {
                assert(all[j] == step.commands[j]);
                assert(step.commands != stop_commands()) by {
                    if step.commands == stop_commands() {
                        assert(stop_commands()[j].action is RemoveTree);
                    }
                }
                assert(next.released);
            } else {
                assert(all[j] == rest[j - n]);
                assert(rest[j - n].action is RemoveTree);
            }
        }
    }
}

/// How far a construction has come, as a number that only grows.
pub open spec fn progress(phase: PhaseView) -> nat {
    match phase {
        PhaseView::OpenGl => 0,
        PhaseView::User => 1,
        PhaseView::Profile { .. } => 2,
        PhaseView::Source { .. } => 3,
        PhaseView::Mount { .. } => 3,
        PhaseView::RootList => 4,
        PhaseView::RootMirror { .. } => 5,
        PhaseView::Finished => 6,
    }
}

/// A construction never goes back: the OpenGL drivers come first, then the
/// user's name and profile, then the explicit mounts, then the host's root
/// directory, then the end.
pub proof fn law_construction_goes_forward(s: ConstructionView, reply: ReplyView)
    ensures
        progress(construct_next(s, reply).0.phase) >= progress(s.phase),
{
}

/// A construction that is finished gives no more commands.
pub proof fn law_finished_stays_finished(s: ConstructionView, reply: ReplyView)
    requires
        s.phase == PhaseView::Finished,
    ensures
        construct_next(s, reply).0.phase == PhaseView::Finished,
        construct_next(s, reply).1.commands.len() == 0,
        construct_next(s, reply).1.next is Abort,
{
}

/// What a mirror engine asks the driver to do is to create a directory, a
/// file or a symbolic link, or to mount; nothing else.
pub open spec fn mirrors(action: ActionView) -> bool {
    action is CreateDir || action is CreateFile || action is Symlink || action is BindMount
}

/// A mirror engine only ever creates directories, files and symbolic links
/// and mounts over them.
pub proof fn law_mirror_only_mirrors(m: MirrorView, reply: ReplyView, i: int)
    requires
        0 <= i < mirror_next(m, reply).1.commands.len(),
    ensures
        mirrors(mirror_next(m, reply).1.commands[i].action),
{
}

/// The root is changed, the identity mapped and the program started in the
/// last step of a construction and in no other: a step with such a command
/// ends the construction.
pub proof fn law_closing_comes_last(s: ConstructionView, reply: ReplyView, i: int)
    requires
        0 <= i < construct_next(s, reply).1.commands.len(),
        ({
            let action = construct_next(s, reply).1.commands[i].action;
            action is ChangeRoot || action is WriteFile || action is Exec || action is Unmount
                || action is ChangeDir
        }),
    ensures
        construct_next(s, reply).1.next is Done,
        construct_next(s, reply).0.phase == PhaseView::Finished,
{
    let out = construct_next(s, reply);
    match s.phase {
        PhaseView::Mount { mirror, rest } => {
            let (m2, step) = mirror_next(mirror, reply);
            assert(out.1.commands =~= step.commands);
            law_mirror_only_mirrors(mirror, reply, i);
        },
        PhaseView::Source { resolution, mount, rest } => {},
        PhaseView::RootMirror { mirror } => {
            let (m2, step) = mirror_next(mirror, reply);
            if !(step.next is Done) {
                law_mirror_only_mirrors(mirror, reply, i);
            }
        },
        _ => {},
    }
}

/// Bytes without separator behind other bytes lengthen the last piece.
pub proof fn lemma_pieces_grow(before: Seq<u8>, name: Seq<u8>)
    requires
        !name.contains(SEPARATOR),
    ensures
        pieces(before + name) == pieces(before).drop_last().push(pieces(before).last() + name),
        pieces(before).len() > 0,
    decreases name.len(),
{
    lemma_pieces_not_empty(before);
    if name.len() == 0 {
        assert(before + name =~= before);
        assert(pieces(before).last() + name =~= pieces(before).last());
        assert(pieces(before).drop_last().push(pieces(before).last()) =~= pieces(before));
    } else {
        let shorter = name.drop_last();
        assert(!shorter.contains(SEPARATOR)) by {
            if shorter.contains(SEPARATOR) {
                let i = choose|i: int| 0 <= i < shorter.len() && shorter[i] == SEPARATOR;
                assert(name[i] == SEPARATOR);
            }
        }
        lemma_pieces_grow(before, shorter);
        assert((before + name).drop_last() =~= before + shorter);
        assert((before + name).last() == name.last());
        assert(name.last() != SEPARATOR) by {
            assert(name[name.len() - 1] == name.last());
        }
        let so_far = pieces(before + shorter);
        assert(so_far.drop_last() =~= pieces(before).drop_last());
        assert(so_far.last().push(name.last()) =~= pieces(before).last() + name);
    }
}

/// There is always at least one piece.
pub proof fn lemma_pieces_not_empty(s: Seq<u8>)
    ensures
        pieces(s).len() > 0,
    decreases s.len(),
{
    if s.len() > 0 {
        lemma_pieces_not_empty(s.drop_last());
    }
}

/// One separator alone has an empty piece on each side.
pub proof fn lemma_pieces_of_separator()
    ensures
        pieces(seq![SEPARATOR]) == seq![Seq::<u8>::empty(), Seq::<u8>::empty()],
{
    let s = seq![SEPARATOR];
    assert(s.last() == SEPARATOR);
    assert(s.drop_last() =~= Seq::<u8>::empty());
    assert(pieces(s.drop_last()) == seq![Seq::<u8>::empty()]);
    assert(pieces(s) =~= seq![Seq::<u8>::empty(), Seq::<u8>::empty()]);
}

/// The bytes that spell a path begin with the first byte of its first
/// component.
pub proof fn lemma_rendered_begins(p: Seq<Seq<u8>>)
    requires
        p.len() > 0,
        p[0].len() > 0,
    ensures
        rendered(p).len() > 0,
        rendered(p)[0] == p[0][0],
    decreases p.len(),
{
    if p.len() > 2 || (p.len() == 2 && p[0] != root_part()) {
        lemma_rendered_begins(p.drop_last());
    }
}

/// The pieces of the bytes that spell a relative path are its components.
pub proof fn lemma_pieces_of_relative(p: Seq<Seq<u8>>)
    requires
        well_formed(p),
        p.len() > 0,
        p[0] != root_part(),
    ensures
        pieces(rendered(p)) == p,
    decreases p.len(),
{
    if p.len() == 1 {
        lemma_pieces_grow(Seq::empty(), p[0]);
        assert(Seq::<u8>::empty() + p[0] =~= p[0]);
        assert(pieces(Seq::<u8>::empty()).drop_last().push(
            pieces(Seq::<u8>::empty()).last() + p[0],
        ) =~= p);
    } else {
        let shorter = p.drop_last();
        assert(well_formed(shorter)) by {
            assert forall|i: int| 0 <= i < shorter.len() implies if #[trigger] shorter[i]
                == root_part() {
                i == 0
            } else {
                is_name(shorter[i]) && (shorter[i] == cur_part() ==> i == 0)
            } by {
                assert(shorter[i] == p[i]);
            }
        }
        lemma_pieces_of_relative(shorter);
        let head = rendered(shorter).push(SEPARATOR);
        assert(p.last() == p[p.len() - 1]);
        assert(p.last() != root_part());
        lemma_pieces_grow(head, p.last());
        assert(head.drop_last() =~= rendered(shorter));
        assert(pieces(head) =~= shorter.push(Seq::empty()));
        assert(pieces(head).drop_last().push(pieces(head).last() + p.last()) =~= p);
    }
}

/// The pieces of the bytes that spell an absolute path with more than its
/// root are an empty piece and the components behind the root.
pub proof fn lemma_pieces_of_absolute(p: Seq<Seq<u8>>)
    requires
        well_formed(p),
        p.len() > 1,
        p[0] == root_part(),
    ensures
        pieces(rendered(p)) == seq![Seq::<u8>::empty()] + p.skip(1),
    decreases p.len(),
{
    assert(p.last() == p[p.len() - 1]);
    assert(p.last() != root_part());
    if p.len() == 2 {
        let head: Seq<u8> = Seq::<u8>::empty().push(SEPARATOR);
        assert(head =~= p[0]);
        assert(rendered(p) =~= head + p[1]);
        lemma_pieces_grow(head, p[1]);
        lemma_pieces_of_separator();
        assert(head =~= seq![SEPARATOR]);
        assert(pieces(head).drop_last().push(pieces(head).last() + p[1]) =~= seq![
            Seq::<u8>::empty(),
        ] + p.skip(1));
    } else {
        let shorter = p.drop_last();
        assert(well_formed(shorter)) by {
            assert forall|i: int| 0 <= i < shorter.len() implies if #[trigger] shorter[i]
                == root_part() {
                i == 0
            } else {
                is_name(shorter[i]) && (shorter[i] == cur_part() ==> i == 0)
            } by {
                assert(shorter[i] == p[i]);
            }
        }
        lemma_pieces_of_absolute(shorter);
        let head = rendered(shorter).push(SEPARATOR);
        lemma_pieces_grow(head, p.last());
        assert(head.drop_last() =~= rendered(shorter));
        assert(pieces(head) =~= (seq![Seq::<u8>::empty()] + shorter.skip(1)).push(Seq::empty()));
        assert(pieces(head).drop_last().push(pieces(head).last() + p.last()) =~= seq![
            Seq::<u8>::empty(),
        ] + p.skip(1));
    }
}

/// Pieces that all count are all kept.
pub proof fn lemma_kept_all(ps: Seq<Seq<u8>>)
    requires
        forall|i: int| 0 <= i < ps.len() ==> counts(i, #[trigger] ps[i]),
    ensures
        kept(ps) == ps,
    decreases ps.len(),
{
    if ps.len() > 0 {
        lemma_kept_all(ps.drop_last());
        assert(ps.drop_last().push(ps.last()) =~= ps);
    }
}

/// An empty piece in front changes nothing in what is kept behind it, as
/// long as no `.` stands there.
pub proof fn lemma_kept_behind_empty(names: Seq<Seq<u8>>)
    requires
        forall|i: int|
            0 <= i < names.len() ==> (#[trigger] names[i]).len() > 0 && names[i] != cur_part(),
    ensures
        kept(seq![Seq::<u8>::empty()] + names) == names,
    decreases names.len(),
{
    let all = seq![Seq::<u8>::empty()] + names;
    if names.len() == 0 {
        assert(all.drop_last() =~= Seq::<Seq<u8>>::empty());
        assert(kept(all.drop_last()) =~= Seq::<Seq<u8>>::empty());
    } else {
        lemma_kept_behind_empty(names.drop_last());
        assert(all.drop_last() =~= seq![Seq::<u8>::empty()] + names.drop_last());
        assert(all.last() == names.last());
        assert(names.drop_last().push(names.last()) =~= names);
    }
}

/// A path made by this library is the path that its bytes spell: spelling
/// it and reading the bytes again gives the same components.
pub proof fn law_spelling_round_trip(p: Seq<Seq<u8>>)
    requires
        well_formed(p),
    ensures
        parsed(rendered(p)) == p,
{
    if p.len() == 0 {
        assert(kept(pieces(Seq::<u8>::empty())) =~= Seq::<Seq<u8>>::empty()) by {
            reveal_with_fuel(kept, 2);
        }
    } else if p[0] == root_part() {
        assert(root_part()[0] == SEPARATOR);
        lemma_rendered_begins(p);
        if p.len() == 1 {
            assert(rendered(p) =~= seq![SEPARATOR]);
            lemma_pieces_of_separator();
            assert(kept(pieces(rendered(p))) =~= Seq::<Seq<u8>>::empty()) by {
                reveal_with_fuel(kept, 3);
                assert(pieces(rendered(p)).drop_last() =~= seq![Seq::<u8>::empty()]);
            }
            assert(seq![root_part()] + Seq::<Seq<u8>>::empty() =~= p);
        } else {
            lemma_pieces_of_absolute(p);
            assert forall|i: int| 0 <= i < p.skip(1).len() implies (#[trigger] p.skip(1)[i]).len()
                > 0 && p.skip(1)[i] != cur_part() by {
                assert(p.skip(1)[i] == p[i + 1]);
            }
            lemma_kept_behind_empty(p.skip(1));
            assert(seq![root_part()] + p.skip(1) =~= p);
        }
    } else {
        assert(is_name(p[0]));
        lemma_rendered_begins(p);
        assert(p[0][0] != SEPARATOR) by {
            assert(p[0].contains(p[0][0]));
        }
        lemma_pieces_of_relative(p);
        assert forall|i: int| 0 <= i < p.len() implies counts(i, #[trigger] p[i]) by {
            assert(p[i] != root_part() ==> is_name(p[i]));
            if p[i] == root_part() {
                assert(i == 0);
            }
        }
        lemma_kept_all(p);
    }
}

/// What is made of well-formed paths by joining, by taking a beginning
/// away and by going to the parent is well formed.
pub proof fn law_paths_stay_well_formed(a: Seq<Seq<u8>>, b: Seq<Seq<u8>>)
    requires
        well_formed(a),
        well_formed(b),
    ensures
        well_formed(joined(a, b)),
        stripped(a, b) matches Some(rest) ==> well_formed(rest),
        parent_of(a) matches Some(dir) ==> well_formed(dir),
{
    assert(root_part() != cur_part()) by {
        assert(root_part()[0] == SEPARATOR);
    }
    let j = joined(a, b);
    assert forall|i: int| 0 <= i < j.len() implies if #[trigger] j[i] == root_part() {
        i == 0
    } else {
        is_name(j[i]) && (j[i] == cur_part() ==> i == 0)
    } by {
        if is_absolute(b) || a.len() == 0 {
            assert(j[i] == b[i]);
        } else if i < a.len() {
            assert(j[i] == a[i]);
        } else if b.len() > 0 && b[0] == cur_part() {
            assert(j[i] == b[i - a.len() + 1]);
        } else {
            assert(j[i] == b[i - a.len()]);
        }
    }
    match stripped(a, b) {
        Some(rest) => {
            assert forall|i: int| 0 <= i < rest.len() implies if #[trigger] rest[i]
                == root_part() {
                i == 0
            } else {
                is_name(rest[i]) && (rest[i] == cur_part() ==> i == 0)
            } by {
                assert(rest[i] == a[i + b.len()]);
            }
        },
        None => {},
    }
    match parent_of(a) {
        Some(dir) => {
            assert forall|i: int| 0 <= i < dir.len() implies if #[trigger] dir[i] == root_part() {
                i == 0
            } else {
                is_name(dir[i]) && (dir[i] == cur_part() ==> i == 0)
            } by {
                assert(dir[i] == a[i]);
            }
        },
        None => {},
    }
}

/// The commands that an outcome holds.
pub open spec fn given(outcome: Outcome) -> Seq<CommandView> {
    match outcome {
        Outcome::Done(commands) => commands,
        Outcome::Stopped(commands, _) => commands,
    }
}

/// A command that prepares the view: it creates a directory, a file or a
/// symbolic link, warns, or mounts an entry of the host with the flags
/// bind, recursive and private, without stopping the construction when the
/// mount fails.
pub open spec fn prepares(command: CommandView) -> bool {
    match command.action {
        ActionView::CreateDir { .. } => true,
        ActionView::CreateDirAll { .. } => true,
        ActionView::CreateFile { .. } => true,
        ActionView::Symlink { .. } => true,
        ActionView::Warn(_) => true,
        ActionView::BindMount { flags, .. } => flags == mirror_flags() && command.on_failure
            == OnFailure::Report,
        _ => false,
    }
}

/// Whether `all` is `done` followed by commands that prepare the view.
pub open spec fn prepared_behind(done: Seq<CommandView>, all: Seq<CommandView>) -> bool {
    &&& done.is_prefix_of(all)
    &&& forall|i: int| done.len() <= i < all.len() ==> prepares(#[trigger] all[i])
}

/// Preparing behind what was prepared is preparing.
pub proof fn lemma_prepared_chain(
    done: Seq<CommandView>,
    middle: Seq<CommandView>,
    all: Seq<CommandView>,
)
    requires
        prepared_behind(done, middle),
        prepared_behind(middle, all),
    ensures
        prepared_behind(done, all),
{
    assert(done =~= all.subrange(0, done.len() as int)) by {
        assert(done =~= middle.subrange(0, done.len() as int));
        assert(middle =~= all.subrange(0, middle.len() as int));
    }
    assert forall|i: int| done.len() <= i < all.len() implies prepares(#[trigger] all[i]) by {
        if i < middle.len() {
            assert(all[i] == middle[i]);
        }
    }
}

/// Whatever mirroring one found entry does, it adds to the commands given
/// before, and what it adds prepares the view.
pub proof fn law_mirroring_prepares_found(
    world: World,
    done: Seq<CommandView>,
    job: JobView,
    depth: nat,
)
    requires
        mirror_found(world, done, job, depth) is Some,
    ensures
        prepared_behind(done, given(mirror_found(world, done, job, depth).unwrap())),
    decreases depth, 0nat,
{
    let host = (world.after)(done);
    let source = job.entry.path();
    let place = job.mount_point();
    match host.kind(source) {
        None => {},
        Some(kind) => match treated_as(kind, source) {
            NodeKind::Directory => {
                if host.present.contains(place) && host.dirs.contains(place) {
                    match host.listing(source) {
                        None => {},
                        Some(names) => {
                            law_mirroring_prepares(
                                world,
                                done,
                                job.children(names),
                                (depth - 1) as nat,
                            );
                        },
                    }
                }
            },
            _ => {},
        },
    }
}

/// Whatever mirroring entries does, it adds to the commands given before,
/// and what it adds prepares the view: nothing is unmounted, no root is
/// changed, nothing is written and no program started while entries are
/// mirrored.
pub proof fn law_mirroring_prepares(
    world: World,
    done: Seq<CommandView>,
    jobs: Seq<JobView>,
    depth: nat,
)
    requires
        mirror_list(world, done, jobs, depth) is Some,
    ensures
        prepared_behind(done, given(mirror_list(world, done, jobs, depth).unwrap())),
    decreases depth, jobs.len() + 2,
{
    if jobs.len() > 0 {
        let host = (world.after)(done);
        let first = mirror_one(world, done, jobs[0], depth).unwrap();
        match located(host, jobs[0], depth).unwrap() {
            Err(_) => {},
            Ok(found) => {
                law_mirroring_prepares_found(world, done, found, depth);
            },
        }
        match first {
            Outcome::Stopped(..) => {},
            Outcome::Done(middle) => {
                law_mirroring_prepares(world, middle, jobs.skip(1), depth);
                lemma_prepared_chain(
                    done,
                    middle,
                    given(mirror_list(world, done, jobs, depth).unwrap()),
                );
            },
        }
    }
}

/// Whether `all` is commands that prepare the view, behind `done`, followed
/// by the closing commands.
pub open spec fn closes(
    done: Seq<CommandView>,
    all: Seq<CommandView>,
    closing: Seq<CommandView>,
) -> bool {
    exists|before: Seq<CommandView>| #[trigger]
        prepared_behind(done, before) && all == before + closing
}

/// Whatever making the explicit mounts and turning to the root does, it
/// adds to the commands given before. Where it is done, it has prepared the
/// view and then closed; where it is stopped, it has only prepared.
pub proof fn law_mounting_prepares(
    world: World,
    done: Seq<CommandView>,
    ctx: RunChrootView,
    launch: LaunchView,
    policy: PathConfigView,
    mounts: Seq<MappingView>,
    depth: nat,
)
    requires
        mounted(world, done, ctx, launch, policy, mounts, depth) is Some,
    ensures
        match mounted(world, done, ctx, launch, policy, mounts, depth).unwrap() {
            Outcome::Done(all) => closes(
                done,
                all,
                closing_commands(ctx, launch, policy.excludes),
            ),
            Outcome::Stopped(all, _) => prepared_behind(done, all),
        },
    decreases mounts.len(),
{
    let host = (world.after)(done);
    let closing = closing_commands(ctx, launch, policy.excludes);
    if mounts.len() == 0 {
        match host.listing(root_dir()) {
            None => {},
            Some(names) => {
                law_mirroring_prepares(world, done, root_jobs(ctx, names), depth);
                match mirror_list(world, done, root_jobs(ctx, names), depth).unwrap() {
                    Outcome::Done(before) => {
                        assert(prepared_behind(done, before));
                    },
                    Outcome::Stopped(..) => {},
                }
            },
        }
    } else {
        let mount = mounts[0];
        let middle = match resolved(host, ctx.nixdir, mount.source, true, depth).unwrap() {
            Err(_) => {
                let middle = done.push(warn(NoticeView::MissingSource { source: mount.source }));
                assert(prepared_behind(done, middle));
                Some(middle)
            },
            Ok(src) => {
                let job = explicit_job(ctx, mount, src);
                let made = done.push(strict(ActionView::CreateDirAll { path: job.ctx.rootdir }));
                assert(prepared_behind(done, made));
                law_mirroring_prepares(world, made, seq![job], depth);
                let one = mirror_list(world, made, seq![job], depth).unwrap();
                lemma_prepared_chain(done, made, given(one));
                match one {
                    Outcome::Done(middle) => Some(middle),
                    Outcome::Stopped(..) => None,
                }
            },
        };
        match middle {
            None => {},
            Some(middle) => {
                law_mounting_prepares(world, middle, ctx, launch, policy, mounts.skip(1), depth);
                match mounted(world, middle, ctx, launch, policy, mounts.skip(1), depth).unwrap() {
                    Outcome::Done(all) => {
                        let before = choose|before: Seq<CommandView>| #[trigger]
                            prepared_behind(middle, before) && all == before + closing;
                        lemma_prepared_chain(done, middle, before);
                        assert(prepared_behind(done, before) && all == before + closing);
                    },
                    Outcome::Stopped(all, _) => {
                        lemma_prepared_chain(done, middle, all);
                    },
                }
            },
        }
    }
}

/// Every construction that comes to its end has done three things in this
/// order and nothing else: it has left the namespaces; it has prepared the
/// view, by creating directories, files and symbolic links, by mounting
/// entries of the host with the flags bind, recursive and private, and by
/// warning; and it has given the closing commands, which unmount the
/// placeholders, lay the store over `nix`, change the root, map the
/// identity and start the program. A construction that is stopped has
/// given no closing command.
pub proof fn law_construction_shape(
    world: World,
    ctx: RunChrootView,
    launch: LaunchView,
    policy: Option<PathConfigView>,
    depth: nat,
)
    requires
        constructed(world, ctx, launch, policy, depth) is Some,
    ensures
        match constructed(world, ctx, launch, policy, depth).unwrap() {
            Outcome::Done(all) => closes(
                seq![strict(ActionView::Unshare)],
                all,
                closing_commands(
                    ctx,
                    launch,
                    match policy {
                        Some(p) => p.excludes,
                        None => Seq::empty(),
                    },
                ),
            ),
            Outcome::Stopped(all, _) => prepared_behind(seq![strict(ActionView::Unshare)], all),
        },
{
    let first = seq![strict(ActionView::Unshare)];
    let found = (world.after)(first).dirs.contains(joined(ctx.nixdir, opengl_source()));
    let done = first + opengl_commands(ctx, found);
    assert(prepared_behind(first, done));
    let host = (world.after)(done);
    let (start, p, mounts): (Option<Seq<CommandView>>, PathConfigView, Seq<MappingView>) =
        match policy {
        None => (Some(done), no_policy(), Seq::empty()),
        Some(p) => match host.user(launch.uid) {
            None => (None, p, Seq::empty()),
            Some(user) => match resolved(
                host,
                ctx.nixdir,
                profile_dir(ctx.nixdir, user),
                false,
                depth,
            ).unwrap() {
                Ok(dir) => (Some(done), p, explicit_mounts(p, Some(dir))),
                Err(_) => {
                    let warned = done + profile_notices(p.profile, user);
                    assert(prepared_behind(done, warned));
                    lemma_prepared_chain(first, done, warned);
                    (Some(warned), p, explicit_mounts(p, None))
                },
            },
        },
    };
    match start {
        None => {},
        Some(start) => {
            if policy is None {
                assert(mounted(world, done, ctx, launch, no_policy(), Seq::empty(), depth)
                    == rooted(world, done, ctx, launch, no_policy(), depth));
            }
            law_mounting_prepares(world, start, ctx, launch, p, mounts, depth);
            let closing = closing_commands(ctx, launch, p.excludes);
            match mounted(world, start, ctx, launch, p, mounts, depth).unwrap() {
                Outcome::Done(all) => {
                    let before = choose|before: Seq<CommandView>| #[trigger]
                        prepared_behind(start, before) && all == before + closing;
                    lemma_prepared_chain(first, start, before);
                    assert(prepared_behind(first, before) && all == before + closing);
                },
                Outcome::Stopped(all, _) => {
                    lemma_prepared_chain(first, start, all);
                },
            }
        },
    }
}

/// Whether the command creates something at `place` or mounts over it.
pub open spec fn touches(command: CommandView, place: Seq<Seq<u8>>) -> bool {
    match command.action {
        ActionView::CreateDir { path, .. } => path == place,
        ActionView::CreateFile { path } => path == place,
        ActionView::Symlink { link, .. } => link == place,
        ActionView::BindMount { target, .. } => target == place,
        _ => false,
    }
}

/// Whether the command creates something at `place`.
pub open spec fn creates(command: CommandView, place: Seq<Seq<u8>>) -> bool {
    match command.action {
        ActionView::CreateDir { path, .. } => path == place,
        ActionView::CreateFile { path } => path == place,
        ActionView::Symlink { link, .. } => link == place,
        _ => false,
    }
}

/// Whether the host shows `place` as taken after the commands `done` and
/// after whatever else is done behind them.
pub open spec fn stays_taken(world: World, done: Seq<CommandView>, place: Seq<Seq<u8>>) -> bool {
    forall|later: Seq<CommandView>|
        done.is_prefix_of(later) ==> #[trigger] (world.after)(later).present.contains(place)
}

/// What begins with `done` begins with what `done` begins with.
pub proof fn lemma_prefix_chain(
    first: Seq<CommandView>,
    done: Seq<CommandView>,
    later: Seq<CommandView>,
)
    requires
        first.is_prefix_of(done),
        done.is_prefix_of(later),
    ensures
        first.is_prefix_of(later),
{
    assert(first =~= later.subrange(0, first.len() as int)) by {
        assert(first =~= done.subrange(0, first.len() as int));
        assert(done =~= later.subrange(0, done.len() as int));
    }
}

/// A place that stays taken is left alone by the mirroring of a found
/// entry.
pub proof fn law_taken_place_untouched_found(
    world: World,
    done: Seq<CommandView>,
    job: JobView,
    depth: nat,
    place: Seq<Seq<u8>>,
)
    requires
        mirror_found(world, done, job, depth) is Some,
        stays_taken(world, done, place),
    ensures
        forall|i: int|
            done.len() <= i < given(mirror_found(world, done, job, depth).unwrap()).len()
                ==> !touches(
                #[trigger] given(mirror_found(world, done, job, depth).unwrap())[i],
                place,
            ),
    decreases depth, 0nat,
{
    let host = (world.after)(done);
    assert(done.is_prefix_of(done)) by {
        assert(done =~= done.subrange(0, done.len() as int));
    }
    assert(host.present.contains(place));
    let source = job.entry.path();
    match host.kind(source) {
        None => {},
        Some(kind) => match treated_as(kind, source) {
            NodeKind::Directory => {
                let place_of_job = job.mount_point();
                if host.present.contains(place_of_job) && host.dirs.contains(place_of_job) {
                    match host.listing(source) {
                        None => {},
                        Some(names) => {
                            law_taken_place_untouched(
                                world,
                                done,
                                job.children(names),
                                (depth - 1) as nat,
                                place,
                            );
                        },
                    }
                }
            },
            _ => {},
        },
    }
}

/// A place that the host shows as taken, and goes on showing as taken, is
/// left alone: while entries are mirrored, nothing is created there and
/// nothing is mounted over it.
pub proof fn law_taken_place_untouched(
    world: World,
    done: Seq<CommandView>,
    jobs: Seq<JobView>,
    depth: nat,
    place: Seq<Seq<u8>>,
)
    requires
        mirror_list(world, done, jobs, depth) is Some,
        stays_taken(world, done, place),
    ensures
        forall|i: int|
            done.len() <= i < given(mirror_list(world, done, jobs, depth).unwrap()).len()
                ==> !touches(
                #[trigger] given(mirror_list(world, done, jobs, depth).unwrap())[i],
                place,
            ),
    decreases depth, jobs.len() + 2,
{
    if jobs.len() > 0 {
        let host = (world.after)(done);
        let all = given(mirror_list(world, done, jobs, depth).unwrap());
        match located(host, jobs[0], depth).unwrap() {
            Err(_) => {},
            Ok(found) => {
                law_taken_place_untouched_found(world, done, found, depth, place);
                law_mirroring_prepares_found(world, done, found, depth);
            },
        }
        match mirror_one(world, done, jobs[0], depth).unwrap() {
            Outcome::Stopped(..) => {},
            Outcome::Done(middle) => {
                assert(stays_taken(world, middle, place)) by {
                    assert forall|later: Seq<CommandView>|
                        middle.is_prefix_of(later) implies #[trigger] (world.after)(
                        later,
                    ).present.contains(place) by {
                        lemma_prefix_chain(done, middle, later);
                    }
                }
                law_taken_place_untouched(world, middle, jobs.skip(1), depth, place);
                law_mirroring_prepares(world, middle, jobs.skip(1), depth);
                assert forall|i: int| done.len() <= i < all.len() implies !touches(
                    #[trigger] all[i],
                    place,
                ) by {
                    if i < middle.len() {
                        assert(all[i] == middle[i]);
                    }
                }
            },
        }
    }
}

/// Every entry that is mirrored to the end gets its place: either the host
/// showed the place as taken when the entry's turn came, or a command
/// creates a directory, a file or a symbolic link there.
pub proof fn law_entry_gets_its_place(
    world: World,
    done: Seq<CommandView>,
    job: JobView,
    depth: nat,
)
    requires
        mirror_one(world, done, job, depth) matches Some(Outcome::Done(_)),
    ensures
        ({
            let all = given(mirror_one(world, done, job, depth).unwrap());
            ||| (world.after)(done).present.contains(job.mount_point())
            ||| exists|i: int|
                done.len() <= i < all.len() && creates(#[trigger] all[i], job.mount_point())
        }),
{
    let host = (world.after)(done);
    let found = located(host, job, depth).unwrap().unwrap();
    assert(found.mount_point() == job.mount_point());
    let all = given(mirror_found(world, done, found, depth).unwrap());
    let place = job.mount_point();
    if !host.present.contains(place) {
        let source = found.entry.path();
        let kind = host.kind(source).unwrap();
        match treated_as(kind, source) {
            NodeKind::Directory => {
                assert(all[done.len() as int] == directory_commands(found, false)[0]);
                assert(creates(all[done.len() as int], place));
            },
            NodeKind::File => {
                assert(all[done.len() as int] == file_commands(found, false)[0]);
                assert(creates(all[done.len() as int], place));
            },
            NodeKind::Symlink => {
                let target = resolved(
                    host,
                    found.ctx.nixdir,
                    source,
                    true,
                    depth,
                ).unwrap().unwrap();
                assert(all[done.len() as int] == symlink_commands(found, target)[0]);
                assert(creates(all[done.len() as int], place));
            },
            NodeKind::Other => {},
        }
    }
}

} // verus!
