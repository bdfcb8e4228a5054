//! What a construction does on a host that changes only by its commands,
//! said plainly, one thing after the other; and that a construction, step
//! by step, gives those commands.

use crate::chroot::RunChrootView;
use crate::config::{MappingView, PathConfigView};
use crate::construct::{
    closing_commands, construct_abort, construct_next, construct_start, explicit_job,
    explicit_mounts, go_on_explicit, go_on_root, next_mount, no_policy, opengl_commands,
    profile_dir, profile_notices, root_jobs, to_root, warn, ConstructionView, LaunchView,
    PhaseView,
};
use crate::host::{ActionView, CommandView, Fatal, NextView, NoticeView, QueryView, StepView};
use crate::meaning::{
    lemma_resolved_lasts, lemma_run_done, lemma_run_step, resolve_run, resolved,
    theorem_resolution_computes, theorem_resolution_is_right,
};
use crate::mirror::{ask, mirror_begin, mirror_next, strict, MirrorView};
use crate::mirrored::{
    lemma_list_lasts, mirror_list, mirror_run, theorem_mirror_computes, theorem_mirror_is_right,
    Outcome, World,
};
use crate::names::{opengl_source, root_dir};
use crate::path::joined;
use crate::resolve::{resolve_next, resolve_start, ResolutionView, ResolveError, ResolvedView};
use vstd::prelude::*;

verus! {

/// What mirroring the host's root directory and closing does, behind the
/// commands `done`: the root directory is listed, its entries but `nix` are
/// mirrored in their order, and the closing commands follow.
pub open spec fn rooted(
    world: World,
    done: Seq<CommandView>,
    ctx: RunChrootView,
    launch: LaunchView,
    policy: PathConfigView,
    depth: nat,
) -> Option<Outcome> {
    match (world.after)(done).listing(root_dir()) {
        None => Some(Outcome::Stopped(done, Fatal::ListFailed)),
        Some(names) => match mirror_list(world, done, root_jobs(ctx, names), depth) {
            None => None,
            Some(Outcome::Stopped(given, reason)) => Some(Outcome::Stopped(given, reason)),
            Some(Outcome::Done(given)) => Some(
                Outcome::Done(given + closing_commands(ctx, launch, policy.excludes)),
            ),
        },
    }
}

/// What making the explicit mounts `mounts`, in their order, and then
/// turning to the root does, behind the commands `done`. The source of each
/// mount is resolved, stopping at the first link target outside `/nix`; a
/// source that cannot be resolved is warned about and left out; any other
/// is mirrored into the directory that holds the destination, which is
/// created first, under the destination's name.
pub open spec fn mounted(
    world: World,
    done: Seq<CommandView>,
    ctx: RunChrootView,
    launch: LaunchView,
    policy: PathConfigView,
    mounts: Seq<MappingView>,
    depth: nat,
) -> Option<Outcome>
    decreases mounts.len(),
{
    if mounts.len() == 0 {
        rooted(world, done, ctx, launch, policy, depth)
    } else {
        let mount = mounts[0];
        match resolved((world.after)(done), ctx.nixdir, mount.source, true, depth) {
            None => None,
            Some(Err(_)) => mounted(
                world,
                done.push(warn(NoticeView::MissingSource { source: mount.source })),
                ctx,
                launch,
                policy,
                mounts.skip(1),
                depth,
            ),
            Some(Ok(src)) => {
                let job = explicit_job(ctx, mount, src);
                match mirror_list(
                    world,
                    done.push(strict(ActionView::CreateDirAll { path: job.ctx.rootdir })),
                    seq![job],
                    depth,
                ) {
                    None => None,
                    Some(Outcome::Stopped(given, reason)) => Some(
                        Outcome::Stopped(given, reason),
                    ),
                    Some(Outcome::Done(given)) => mounted(
                        world,
                        given,
                        ctx,
                        launch,
                        policy,
                        mounts.skip(1),
                        depth,
                    ),
                }
            },
        }
    }
}

/// What a construction does, from the first command to the last, if that
/// can be told within `depth` nested directories and resolutions:
///
/// 1. the namespaces are left;
/// 2. where the store has OpenGL driver libraries, they are mounted;
/// 3. under a policy, the user's name is asked for and the user's profile
///    directory resolved, every link followed; the explicit mounts are
///    made, with a warning for each profile mount where there is no
///    profile;
/// 4. the host's root directory is mirrored;
/// 5. the closing commands are given.
pub open spec fn constructed(
    world: World,
    ctx: RunChrootView,
    launch: LaunchView,
    policy: Option<PathConfigView>,
    depth: nat,
) -> Option<Outcome> {
    let first = seq![strict(ActionView::Unshare)];
    let found = (world.after)(first).dirs.contains(joined(ctx.nixdir, opengl_source()));
    let done = first + opengl_commands(ctx, found);
    match policy {
        None => rooted(world, done, ctx, launch, no_policy(), depth),
        Some(policy) => match (world.after)(done).user(launch.uid) {
            None => Some(Outcome::Stopped(done, Fatal::UnknownUser)),
            Some(user) => match resolved(
                (world.after)(done),
                ctx.nixdir,
                profile_dir(ctx.nixdir, user),
                false,
                depth,
            ) {
                None => None,
                Some(Ok(dir)) => mounted(
                    world,
                    done,
                    ctx,
                    launch,
                    policy,
                    explicit_mounts(policy, Some(dir)),
                    depth,
                ),
                Some(Err(_)) => mounted(
                    world,
                    done + profile_notices(policy.profile, user),
                    ctx,
                    launch,
                    policy,
                    explicit_mounts(policy, None),
                    depth,
                ),
            },
        },
    }
}

/// How a construction that has come to `at`, behind the commands `done`,
/// ends in `world`, if it ends within `steps` answers.
#[verifier::opaque]
pub open spec fn construct_run(
    world: World,
    done: Seq<CommandView>,
    at: (ConstructionView, StepView),
    steps: nat,
) -> Option<Outcome>
    decreases steps,
{
    let given = done + at.1.commands;
    match at.1.next {
        NextView::Done => Some(Outcome::Done(given)),
        NextView::Abort(reason) => Some(Outcome::Stopped(given, reason)),
        NextView::Ask(question) => if steps == 0 {
            None
        } else {
            construct_run(
                world,
                given,
                construct_next(at.0, (world.after)(given).answer(question)),
                (steps - 1) as nat,
            )
        },
    }
}

/// A construction that gives commands and asks goes on, behind those
/// commands, with the answer of the host, which uses up one answer.
pub proof fn lemma_construct_asks(
    world: World,
    done: Seq<CommandView>,
    s: ConstructionView,
    commands: Seq<CommandView>,
    question: QueryView,
    steps: nat,
)
    ensures
        construct_run(
            world,
            done,
            (s, StepView { commands, next: NextView::Ask(question) }),
            steps + 1,
        ) == construct_run(
            world,
            done + commands,
            construct_next(s, (world.after)(done + commands).answer(question)),
            steps,
        ),
{
    reveal(construct_run);
}

/// A construction that is done or stopped ends so, with its last commands
/// given.
pub proof fn lemma_construct_ends(
    world: World,
    done: Seq<CommandView>,
    at: (ConstructionView, StepView),
    steps: nat,
)
    ensures
        at.1.next is Done ==> construct_run(world, done, at, steps) == Some(
            Outcome::Done(done + at.1.commands),
        ),
        at.1.next matches NextView::Abort(reason) ==> construct_run(world, done, at, steps)
            == Some(Outcome::Stopped(done + at.1.commands, reason)),
{
    reveal(construct_run);
}

/// Commands that a step gives may as well have been given before.
pub proof fn lemma_construct_shifts(
    world: World,
    done: Seq<CommandView>,
    s: ConstructionView,
    commands: Seq<CommandView>,
    next: NextView,
    steps: nat,
)
    ensures
        construct_run(world, done, (s, StepView { commands, next }), steps) == construct_run(
            world,
            done + commands,
            (s, StepView { commands: Seq::empty(), next }),
            steps,
        ),
{
    reveal(construct_run);
    assert((done + commands) + Seq::<CommandView>::empty() =~= done + commands);
}

/// The state `s` in the phase `phase`.
pub open spec fn in_phase(s: ConstructionView, phase: PhaseView) -> ConstructionView {
    ConstructionView { phase, ..s }
}

/// How a construction goes on when the engine that makes an explicit mount
/// has come to `outcome`: with the mounts that are left.
pub open spec fn mount_goes_on(
    world: World,
    s: ConstructionView,
    outcome: Outcome,
    rest: Seq<MappingView>,
    more: nat,
) -> Option<Outcome> {
    match outcome {
        Outcome::Done(given) => construct_run(
            world,
            given,
            next_mount(s, rest, Seq::empty()),
            more,
        ),
        Outcome::Stopped(given, reason) => Some(Outcome::Stopped(given, reason)),
    }
}

/// A construction that makes an explicit mount goes through the steps of
/// the mirror engine, gives its commands, and then turns to the next
/// mount.
pub proof fn lemma_mounting(
    world: World,
    done: Seq<CommandView>,
    s: ConstructionView,
    mirror: MirrorView,
    step: StepView,
    rest: Seq<MappingView>,
    before: Seq<CommandView>,
    steps: nat,
    more: nat,
) -> (used: nat)
    requires
        mirror_run(world, done + before, (mirror, step), steps) is Some,
    ensures
        construct_run(world, done, go_on_explicit(s, mirror, step, rest, before), used + more)
            == mount_goes_on(
            world,
            s,
            mirror_run(world, done + before, (mirror, step), steps).unwrap(),
            rest,
            more,
        ),
    decreases steps,
{
    reveal(mirror_run);
    let here = go_on_explicit(s, mirror, step, rest, before);
    let given = done + before + step.commands;
    assert(done + (before + step.commands) =~= given);
    match step.next {
        NextView::Done => {
            lemma_construct_shifts(
                world,
                done,
                next_mount(s, rest, before + step.commands).0,
                before + step.commands,
                next_mount(s, rest, before + step.commands).1.next,
                more,
            );
            0
        },
        NextView::Abort(reason) => {
            lemma_construct_ends(world, done, here, more);
            0
        },
        NextView::Ask(question) => {
            let reply = (world.after)(given).answer(question);
            let (mirror2, step2) = mirror_next(mirror, reply);
            assert(given + Seq::<CommandView>::empty() =~= given);
            let used = lemma_mounting(
                world,
                given,
                s,
                mirror2,
                step2,
                rest,
                Seq::empty(),
                (steps - 1) as nat,
                more,
            );
            lemma_construct_asks(
                world,
                done,
                here.0,
                before + step.commands,
                question,
                used + more,
            );
            assert(construct_next(here.0, reply) == go_on_explicit(
                s,
                mirror2,
                step2,
                rest,
                Seq::empty(),
            ));
            used + 1
        },
    }
}

/// How a construction ends when the engine that mirrors the root has come
/// to `outcome`: with the closing commands behind the engine's.
pub open spec fn root_goes_on(s: ConstructionView, outcome: Outcome) -> Option<Outcome> {
    match outcome {
        Outcome::Done(given) => Some(
            Outcome::Done(given + closing_commands(s.ctx, s.launch, s.policy.excludes)),
        ),
        Outcome::Stopped(given, reason) => Some(Outcome::Stopped(given, reason)),
    }
}

/// A construction that mirrors the root goes through the steps of the
/// mirror engine, gives its commands, and closes.
pub proof fn lemma_rooting(
    world: World,
    done: Seq<CommandView>,
    s: ConstructionView,
    mirror: MirrorView,
    step: StepView,
    steps: nat,
) -> (used: nat)
    requires
        mirror_run(world, done, (mirror, step), steps) is Some,
    ensures
        construct_run(world, done, go_on_root(s, mirror, step), used) == root_goes_on(
            s,
            mirror_run(world, done, (mirror, step), steps).unwrap(),
        ),
    decreases steps,
{
    reveal(mirror_run);
    let here = go_on_root(s, mirror, step);
    let given = done + step.commands;
    match step.next {
        NextView::Done => {
            lemma_construct_ends(world, done, here, 0);
            assert(done + (step.commands + closing_commands(
                s.ctx,
                s.launch,
                s.policy.excludes,
            )) =~= given + closing_commands(s.ctx, s.launch, s.policy.excludes));
            0
        },
        NextView::Abort(reason) => {
            lemma_construct_ends(world, done, here, 0);
            0
        },
        NextView::Ask(question) => {
            let reply = (world.after)(given).answer(question);
            let (mirror2, step2) = mirror_next(mirror, reply);
            let used = lemma_rooting(world, given, s, mirror2, step2, (steps - 1) as nat);
            lemma_construct_asks(world, done, here.0, step.commands, question, used);
            assert(construct_next(here.0, reply) == go_on_root(s, mirror2, step2));
            used + 1
        },
    }
}

/// Where a construction stands once the user's profile directory has
/// resolved to `result`.
pub open spec fn after_profile(
    s: ConstructionView,
    user: Seq<u8>,
    result: Result<Seq<Seq<u8>>, ResolveError>,
) -> (ConstructionView, StepView) {
    match result {
        Ok(dir) => next_mount(s, explicit_mounts(s.policy, Some(dir)), Seq::empty()),
        Err(_) => next_mount(
            s,
            explicit_mounts(s.policy, None),
            profile_notices(s.policy.profile, user),
        ),
    }
}

/// Where a construction stands once the source of the explicit mount
/// `mount` has resolved to `result`.
pub open spec fn after_source(
    s: ConstructionView,
    mount: MappingView,
    rest: Seq<MappingView>,
    result: Result<Seq<Seq<u8>>, ResolveError>,
) -> (ConstructionView, StepView) {
    match result {
        Ok(src) => {
            let job = explicit_job(s.ctx, mount, src);
            let (mirror, step) = mirror_begin(seq![job]);
            go_on_explicit(
                s,
                mirror,
                step,
                rest,
                seq![strict(ActionView::CreateDirAll { path: job.ctx.rootdir })],
            )
        },
        Err(_) => next_mount(
            s,
            rest,
            seq![warn(NoticeView::MissingSource { source: mount.source })],
        ),
    }
}

/// A construction that resolves the user's profile directory goes through
/// the resolution, answer by answer, and then stands where `after_profile`
/// says.
pub proof fn lemma_profiling(
    world: World,
    done: Seq<CommandView>,
    s: ConstructionView,
    user: Seq<u8>,
    resolution: ResolutionView,
    question: QueryView,
    steps: nat,
    more: nat,
) -> (used: nat)
    requires
        resolve_run((world.after)(done), (resolution, ResolvedView::Ask(question)), steps)
            is Some,
    ensures
        construct_run(
            world,
            done,
            (in_phase(s, PhaseView::Profile { user, resolution }), ask(question)),
            used + more,
        ) == construct_run(
            world,
            done,
            after_profile(
                s,
                user,
                resolve_run(
                    (world.after)(done),
                    (resolution, ResolvedView::Ask(question)),
                    steps,
                ).unwrap(),
            ),
            more,
        ),
    decreases steps,
{
    let host = (world.after)(done);
    let here = (resolution, ResolvedView::Ask(question));
    let state = in_phase(s, PhaseView::Profile { user, resolution });
    lemma_run_step(host, here, question, 0);
    assert(steps > 0);
    lemma_run_step(host, here, question, (steps - 1) as nat);
    let next = resolve_next(resolution, host.answer(question));
    assert(done + Seq::<CommandView>::empty() =~= done);
    match next.1 {
        ResolvedView::Done(result) => {
            lemma_run_done(host, next, result, (steps - 1) as nat);
            lemma_construct_asks(world, done, state, Seq::empty(), question, more);
            assert(construct_next(state, host.answer(question)) == after_profile(s, user, result));
            1
        },
        ResolvedView::Ask(again) => {
            let used = lemma_profiling(
                world,
                done,
                s,
                user,
                next.0,
                again,
                (steps - 1) as nat,
                more,
            );
            lemma_construct_asks(world, done, state, Seq::empty(), question, used + more);
            assert(construct_next(state, host.answer(question)) == (
                in_phase(s, PhaseView::Profile { user, resolution: next.0 }),
                ask(again),
            ));
            used + 1
        },
    }
}

/// A construction that resolves the source of an explicit mount goes
/// through the resolution, answer by answer, and then stands where
/// `after_source` says.
pub proof fn lemma_sourcing(
    world: World,
    done: Seq<CommandView>,
    s: ConstructionView,
    mount: MappingView,
    rest: Seq<MappingView>,
    resolution: ResolutionView,
    question: QueryView,
    steps: nat,
    more: nat,
) -> (used: nat)
    requires
        resolve_run((world.after)(done), (resolution, ResolvedView::Ask(question)), steps)
            is Some,
    ensures
        construct_run(
            world,
            done,
            (in_phase(s, PhaseView::Source { resolution, mount, rest }), ask(question)),
            used + more,
        ) == construct_run(
            world,
            done,
            after_source(
                s,
                mount,
                rest,
                resolve_run(
                    (world.after)(done),
                    (resolution, ResolvedView::Ask(question)),
                    steps,
                ).unwrap(),
            ),
            more,
        ),
    decreases steps,
{
    let host = (world.after)(done);
    let here = (resolution, ResolvedView::Ask(question));
    let state = in_phase(s, PhaseView::Source { resolution, mount, rest });
    lemma_run_step(host, here, question, 0);
    assert(steps > 0);
    lemma_run_step(host, here, question, (steps - 1) as nat);
    let next = resolve_next(resolution, host.answer(question));
    assert(done + Seq::<CommandView>::empty() =~= done);
    match next.1 {
        ResolvedView::Done(result) => {
            lemma_run_done(host, next, result, (steps - 1) as nat);
            lemma_construct_asks(world, done, state, Seq::empty(), question, more);
            assert(construct_next(state, host.answer(question)) == after_source(
                s,
                mount,
                rest,
                result,
            ));
            1
        },
        ResolvedView::Ask(again) => {
            let used = lemma_sourcing(
                world,
                done,
                s,
                mount,
                rest,
                next.0,
                again,
                (steps - 1) as nat,
                more,
            );
            lemma_construct_asks(world, done, state, Seq::empty(), question, used + more);
            assert(construct_next(state, host.answer(question)) == (
                in_phase(s, PhaseView::Source { resolution: next.0, mount, rest }),
                ask(again),
            ));
            used + 1
        },
    }
}

/// A construction that turns to the root lists it, mirrors it and closes,
/// as the plain definition says.
pub proof fn lemma_root(
    world: World,
    done: Seq<CommandView>,
    s: ConstructionView,
    depth: nat,
) -> (used: nat)
    requires
        rooted(world, done, s.ctx, s.launch, s.policy, depth) is Some,
    ensures
        construct_run(world, done, to_root(s, Seq::empty()), used) == rooted(
            world,
            done,
            s.ctx,
            s.launch,
            s.policy,
            depth,
        ),
{
    let host = (world.after)(done);
    let here = to_root(s, Seq::empty());
    let question = QueryView::List(root_dir());
    assert(done + Seq::<CommandView>::empty() =~= done);
    let next = construct_next(here.0, host.answer(question));
    match host.listing(root_dir()) {
        None => {
            assert(next == construct_abort(here.0, Fatal::ListFailed));
            lemma_construct_asks(world, done, here.0, Seq::empty(), question, 0);
            lemma_construct_ends(world, done, next, 0);
            1
        },
        Some(names) => {
            let jobs = root_jobs(s.ctx, names);
            let (mirror, step) = mirror_begin(jobs);
            assert(next == go_on_root(s, mirror, step));
            let steps = theorem_mirror_computes(world, done, jobs, depth);
            let used = lemma_rooting(world, done, s, mirror, step, steps);
            lemma_construct_asks(world, done, here.0, Seq::empty(), question, used);
            used + 1
        },
    }
}

/// A construction that turns to the explicit mounts `mounts` makes them
/// one after the other and then turns to the root, as the plain definition
/// says.
pub proof fn lemma_mounts(
    world: World,
    done: Seq<CommandView>,
    s: ConstructionView,
    mounts: Seq<MappingView>,
    depth: nat,
) -> (used: nat)
    requires
        mounted(world, done, s.ctx, s.launch, s.policy, mounts, depth) is Some,
    ensures
        construct_run(world, done, next_mount(s, mounts, Seq::empty()), used) == mounted(
            world,
            done,
            s.ctx,
            s.launch,
            s.policy,
            mounts,
            depth,
        ),
    decreases mounts.len(),
{
    if mounts.len() == 0 {
        lemma_root(world, done, s, depth)
    } else {
        let host = (world.after)(done);
        let mount = mounts[0];
        let rest = mounts.skip(1);
        let start = resolve_start(s.ctx.nixdir, mount.source, true);
        let question = QueryView::IsSymlink(mount.source);
        assert(next_mount(s, mounts, Seq::empty()) == (
            in_phase(s, PhaseView::Source { resolution: start.0, mount, rest }),
            ask(question),
        ));
        let steps = theorem_resolution_computes(host, s.ctx.nixdir, mount.source, true, depth);
        match resolved(host, s.ctx.nixdir, mount.source, true, depth).unwrap() {
            Err(_) => {
                let notice = seq![warn(NoticeView::MissingSource { source: mount.source })];
                assert(done + notice =~= done.push(notice[0]));
                let after = lemma_mounts(world, done + notice, s, rest, depth);
                let first = lemma_sourcing(
                    world,
                    done,
                    s,
                    mount,
                    rest,
                    start.0,
                    question,
                    steps,
                    after,
                );
                lemma_construct_shifts(
                    world,
                    done,
                    next_mount(s, rest, notice).0,
                    notice,
                    next_mount(s, rest, notice).1.next,
                    after,
                );
                first + after
            },
            Ok(src) => {
                let job = explicit_job(s.ctx, mount, src);
                let before = seq![strict(ActionView::CreateDirAll { path: job.ctx.rootdir })];
                assert(done + before =~= done.push(before[0]));
                let (mirror, step) = mirror_begin(seq![job]);
                let mirroring = theorem_mirror_computes(world, done + before, seq![job], depth);
                match mirror_list(world, done + before, seq![job], depth).unwrap() {
                    Outcome::Stopped(given, reason) => {
                        let second = lemma_mounting(
                            world,
                            done,
                            s,
                            mirror,
                            step,
                            rest,
                            before,
                            mirroring,
                            0,
                        );
                        let first = lemma_sourcing(
                            world,
                            done,
                            s,
                            mount,
                            rest,
                            start.0,
                            question,
                            steps,
                            second,
                        );
                        first + second
                    },
                    Outcome::Done(given) => {
                        let after = lemma_mounts(world, given, s, rest, depth);
                        let second = lemma_mounting(
                            world,
                            done,
                            s,
                            mirror,
                            step,
                            rest,
                            before,
                            mirroring,
                            after,
                        );
                        let first = lemma_sourcing(
                            world,
                            done,
                            s,
                            mount,
                            rest,
                            start.0,
                            question,
                            steps,
                            second + after,
                        );
                        first + second + after
                    },
                }
            },
        }
    }
}

/// Whatever a construction does by the plain definition, the construction
/// ends with, after some number of answers of the host: the same commands,
/// in the same order, and the same end.
pub proof fn theorem_construction_computes(
    world: World,
    ctx: RunChrootView,
    launch: LaunchView,
    policy: Option<PathConfigView>,
    depth: nat,
) -> (steps: nat)
    requires
        constructed(world, ctx, launch, policy, depth) is Some,
    ensures
        construct_run(world, Seq::empty(), construct_start(ctx, launch, policy), steps)
            == constructed(world, ctx, launch, policy, depth),
{
    let start = construct_start(ctx, launch, policy);
    let s = start.0;
    let first = seq![strict(ActionView::Unshare)];
    assert(Seq::<CommandView>::empty() + first =~= first);
    let opengl = QueryView::IsDir(joined(ctx.nixdir, opengl_source()));
    let found = (world.after)(first).dirs.contains(joined(ctx.nixdir, opengl_source()));
    let commands = opengl_commands(ctx, found);
    let done = first + commands;
    let second = construct_next(s, (world.after)(first).answer(opengl));
    match policy {
        None => {
            assert(second == to_root(s, commands));
            let used = lemma_root(world, done, s, depth);
            lemma_construct_asks(world, Seq::empty(), s, first, opengl, used);
            lemma_construct_shifts(
                world,
                first,
                to_root(s, commands).0,
                commands,
                to_root(s, commands).1.next,
                used,
            );
            used + 1
        },
        Some(given) => {
            let host = (world.after)(done);
            let name = QueryView::UserName(launch.uid);
            let asking = in_phase(s, PhaseView::User);
            assert(second == (asking, StepView { commands, next: NextView::Ask(name) }));
            let third = construct_next(asking, host.answer(name));
            match host.user(launch.uid) {
                None => {
                    assert(third == construct_abort(asking, Fatal::UnknownUser));
                    lemma_construct_asks(world, Seq::empty(), s, first, opengl, 1);
                    lemma_construct_asks(world, first, asking, commands, name, 0);
                    lemma_construct_ends(world, done, third, 0);
                    assert(done + Seq::<CommandView>::empty() =~= done);
                    2
                },
                Some(user) => {
                    let dir = profile_dir(ctx.nixdir, user);
                    let resolving = resolve_start(ctx.nixdir, dir, false);
                    let question = QueryView::IsSymlink(dir);
                    assert(third == (
                        in_phase(
                            s,
                            PhaseView::Profile { user, resolution: resolving.0 },
                        ),
                        ask(question),
                    ));
                    let steps = theorem_resolution_computes(host, ctx.nixdir, dir, false, depth);
                    let result = resolved(host, ctx.nixdir, dir, false, depth).unwrap();
                    let after = match result {
                        Ok(found_dir) => lemma_mounts(
                            world,
                            done,
                            s,
                            explicit_mounts(given, Some(found_dir)),
                            depth,
                        ),
                        Err(_) => {
                            let notices = profile_notices(given.profile, user);
                            let used = lemma_mounts(
                                world,
                                done + notices,
                                s,
                                explicit_mounts(given, None),
                                depth,
                            );
                            lemma_construct_shifts(
                                world,
                                done,
                                next_mount(s, explicit_mounts(given, None), notices).0,
                                notices,
                                next_mount(s, explicit_mounts(given, None), notices).1.next,
                                used,
                            );
                            used
                        },
                    };
                    let profiling = lemma_profiling(
                        world,
                        done,
                        s,
                        user,
                        resolving.0,
                        question,
                        steps,
                        after,
                    );
                    lemma_construct_asks(
                        world,
                        Seq::empty(),
                        s,
                        first,
                        opengl,
                        1 + profiling + after,
                    );
                    lemma_construct_asks(world, first, asking, commands, name, profiling + after);
                    2 + profiling + after
                },
            }
        },
    }
}

/// The greater of two depths.
pub open spec fn deeper_of(a: nat, b: nat) -> nat {
    if a <= b {
        b
    } else {
        a
    }
}

/// What mirroring the root and closing does within some depth, it does
/// within any greater depth.
pub proof fn lemma_rooted_lasts(
    world: World,
    done: Seq<CommandView>,
    ctx: RunChrootView,
    launch: LaunchView,
    policy: PathConfigView,
    depth: nat,
    deeper: nat,
)
    requires
        depth <= deeper,
        rooted(world, done, ctx, launch, policy, depth) is Some,
    ensures
        rooted(world, done, ctx, launch, policy, deeper) == rooted(
            world,
            done,
            ctx,
            launch,
            policy,
            depth,
        ),
{
    match (world.after)(done).listing(root_dir()) {
        None => {},
        Some(names) => {
            lemma_list_lasts(world, done, root_jobs(ctx, names), depth, deeper);
        },
    }
}

/// What making the explicit mounts does within some depth, it does within
/// any greater depth.
pub proof fn lemma_mounted_lasts(
    world: World,
    done: Seq<CommandView>,
    ctx: RunChrootView,
    launch: LaunchView,
    policy: PathConfigView,
    mounts: Seq<MappingView>,
    depth: nat,
    deeper: nat,
)
    requires
        depth <= deeper,
        mounted(world, done, ctx, launch, policy, mounts, depth) is Some,
    ensures
        mounted(world, done, ctx, launch, policy, mounts, deeper) == mounted(
            world,
            done,
            ctx,
            launch,
            policy,
            mounts,
            depth,
        ),
    decreases mounts.len(),
{
    if mounts.len() == 0 {
        lemma_rooted_lasts(world, done, ctx, launch, policy, depth, deeper);
    } else {
        let host = (world.after)(done);
        let mount = mounts[0];
        lemma_resolved_lasts(host, ctx.nixdir, mount.source, true, depth, deeper);
        match resolved(host, ctx.nixdir, mount.source, true, depth).unwrap() {
            Err(_) => {
                lemma_mounted_lasts(
                    world,
                    done.push(warn(NoticeView::MissingSource { source: mount.source })),
                    ctx,
                    launch,
                    policy,
                    mounts.skip(1),
                    depth,
                    deeper,
                );
            },
            Ok(src) => {
                let job = explicit_job(ctx, mount, src);
                let made = done.push(strict(ActionView::CreateDirAll { path: job.ctx.rootdir }));
                lemma_list_lasts(world, made, seq![job], depth, deeper);
                match mirror_list(world, made, seq![job], depth).unwrap() {
                    Outcome::Stopped(..) => {},
                    Outcome::Done(given) => {
                        lemma_mounted_lasts(
                            world,
                            given,
                            ctx,
                            launch,
                            policy,
                            mounts.skip(1),
                            depth,
                            deeper,
                        );
                    },
                }
            },
        }
    }
}

/// A construction that mirrors the root and ends has gone through an
/// engine that ends, within `steps` answers or fewer, and has closed
/// behind it.
pub proof fn lemma_rooting_ends(
    world: World,
    done: Seq<CommandView>,
    s: ConstructionView,
    mirror: MirrorView,
    step: StepView,
    steps: nat,
)
    requires
        construct_run(world, done, go_on_root(s, mirror, step), steps) is Some,
    ensures
        mirror_run(world, done, (mirror, step), steps) is Some,
        construct_run(world, done, go_on_root(s, mirror, step), steps) == root_goes_on(
            s,
            mirror_run(world, done, (mirror, step), steps).unwrap(),
        ),
    decreases steps,
{
    reveal(mirror_run);
    let here = go_on_root(s, mirror, step);
    let given = done + step.commands;
    match step.next {
        NextView::Done => {
            lemma_construct_ends(world, done, here, steps);
            assert(done + (step.commands + closing_commands(
                s.ctx,
                s.launch,
                s.policy.excludes,
            )) =~= given + closing_commands(s.ctx, s.launch, s.policy.excludes));
        },
        NextView::Abort(reason) => {
            lemma_construct_ends(world, done, here, steps);
        },
        NextView::Ask(question) => {
            assert(steps > 0) by {
                reveal(construct_run);
            }
            let reply = (world.after)(given).answer(question);
            let (mirror2, step2) = mirror_next(mirror, reply);
            lemma_construct_asks(
                world,
                done,
                here.0,
                step.commands,
                question,
                (steps - 1) as nat,
            );
            assert(construct_next(here.0, reply) == go_on_root(s, mirror2, step2));
            lemma_rooting_ends(world, given, s, mirror2, step2, (steps - 1) as nat);
        },
    }
}

/// A construction that makes an explicit mount and ends has gone through
/// an engine that ends, with `used` answers, and has then turned to the
/// next mount.
pub proof fn lemma_mounting_ends(
    world: World,
    done: Seq<CommandView>,
    s: ConstructionView,
    mirror: MirrorView,
    step: StepView,
    rest: Seq<MappingView>,
    before: Seq<CommandView>,
    steps: nat,
) -> (used: nat)
    requires
        construct_run(world, done, go_on_explicit(s, mirror, step, rest, before), steps)
            is Some,
    ensures
        used <= steps,
        mirror_run(world, done + before, (mirror, step), used) is Some,
        construct_run(world, done, go_on_explicit(s, mirror, step, rest, before), steps)
            == mount_goes_on(
            world,
            s,
            mirror_run(world, done + before, (mirror, step), used).unwrap(),
            rest,
            (steps - used) as nat,
        ),
    decreases steps,
{
    reveal(mirror_run);
    let here = go_on_explicit(s, mirror, step, rest, before);
    let given = done + before + step.commands;
    assert(done + (before + step.commands) =~= given);
    match step.next {
        NextView::Done => {
            lemma_construct_shifts(
                world,
                done,
                next_mount(s, rest, before + step.commands).0,
                before + step.commands,
                next_mount(s, rest, before + step.commands).1.next,
                steps,
            );
            0
        },
        NextView::Abort(reason) => {
            lemma_construct_ends(world, done, here, steps);
            0
        },
        NextView::Ask(question) => {
            assert(steps > 0) by {
                reveal(construct_run);
            }
            let reply = (world.after)(given).answer(question);
            let (mirror2, step2) = mirror_next(mirror, reply);
            assert(given + Seq::<CommandView>::empty() =~= given);
            lemma_construct_asks(
                world,
                done,
                here.0,
                before + step.commands,
                question,
                (steps - 1) as nat,
            );
            assert(construct_next(here.0, reply) == go_on_explicit(
                s,
                mirror2,
                step2,
                rest,
                Seq::empty(),
            ));
            let used = lemma_mounting_ends(
                world,
                given,
                s,
                mirror2,
                step2,
                rest,
                Seq::empty(),
                (steps - 1) as nat,
            );
            used + 1
        },
    }
}

/// A construction that resolves the user's profile directory and ends has,
/// on its way, ended the resolution: within `out.0` answers, of which the
/// construction used `out.1`.
pub proof fn lemma_profiling_ends(
    world: World,
    done: Seq<CommandView>,
    s: ConstructionView,
    user: Seq<u8>,
    resolution: ResolutionView,
    question: QueryView,
    steps: nat,
) -> (out: (nat, nat))
    requires
        construct_run(
            world,
            done,
            (in_phase(s, PhaseView::Profile { user, resolution }), ask(question)),
            steps,
        ) is Some,
    ensures
        resolve_run((world.after)(done), (resolution, ResolvedView::Ask(question)), out.0)
            is Some,
        1 <= out.1 <= steps,
        construct_run(
            world,
            done,
            (in_phase(s, PhaseView::Profile { user, resolution }), ask(question)),
            steps,
        ) == construct_run(
            world,
            done,
            after_profile(
                s,
                user,
                resolve_run(
                    (world.after)(done),
                    (resolution, ResolvedView::Ask(question)),
                    out.0,
                ).unwrap(),
            ),
            (steps - out.1) as nat,
        ),
    decreases steps,
{
    let host = (world.after)(done);
    let here = (resolution, ResolvedView::Ask(question));
    let state = in_phase(s, PhaseView::Profile { user, resolution });
    assert(done + Seq::<CommandView>::empty() =~= done);
    assert(steps > 0) by {
        reveal(construct_run);
    }
    lemma_construct_asks(world, done, state, Seq::empty(), question, (steps - 1) as nat);
    let next = resolve_next(resolution, host.answer(question));
    match next.1 {
        ResolvedView::Done(result) => {
            lemma_run_step(host, here, question, 0);
            lemma_run_done(host, next, result, 0);
            assert(construct_next(state, host.answer(question)) == after_profile(s, user, result));
            (1, 1)
        },
        ResolvedView::Ask(again) => {
            assert(construct_next(state, host.answer(question)) == (
                in_phase(s, PhaseView::Profile { user, resolution: next.0 }),
                ask(again),
            ));
            let inner = lemma_profiling_ends(
                world,
                done,
                s,
                user,
                next.0,
                again,
                (steps - 1) as nat,
            );
            lemma_run_step(host, here, question, inner.0);
            (inner.0 + 1, inner.1 + 1)
        },
    }
}

/// A construction that resolves the source of an explicit mount and ends
/// has, on its way, ended the resolution: within `out.0` answers, of which
/// the construction used `out.1`.
pub proof fn lemma_sourcing_ends(
    world: World,
    done: Seq<CommandView>,
    s: ConstructionView,
    mount: MappingView,
    rest: Seq<MappingView>,
    resolution: ResolutionView,
    question: QueryView,
    steps: nat,
) -> (out: (nat, nat))
    requires
        construct_run(
            world,
            done,
            (in_phase(s, PhaseView::Source { resolution, mount, rest }), ask(question)),
            steps,
        ) is Some,
    ensures
        resolve_run((world.after)(done), (resolution, ResolvedView::Ask(question)), out.0)
            is Some,
        1 <= out.1 <= steps,
        construct_run(
            world,
            done,
            (in_phase(s, PhaseView::Source { resolution, mount, rest }), ask(question)),
            steps,
        ) == construct_run(
            world,
            done,
            after_source(
                s,
                mount,
                rest,
                resolve_run(
                    (world.after)(done),
                    (resolution, ResolvedView::Ask(question)),
                    out.0,
                ).unwrap(),
            ),
            (steps - out.1) as nat,
        ),
    decreases steps,
{
    let host = (world.after)(done);
    let here = (resolution, ResolvedView::Ask(question));
    let state = in_phase(s, PhaseView::Source { resolution, mount, rest });
    assert(done + Seq::<CommandView>::empty() =~= done);
    assert(steps > 0) by {
        reveal(construct_run);
    }
    lemma_construct_asks(world, done, state, Seq::empty(), question, (steps - 1) as nat);
    let next = resolve_next(resolution, host.answer(question));
    match next.1 {
        ResolvedView::Done(result) => {
            lemma_run_step(host, here, question, 0);
            lemma_run_done(host, next, result, 0);
            assert(construct_next(state, host.answer(question)) == after_source(
                s,
                mount,
                rest,
                result,
            ));
            (1, 1)
        },
        ResolvedView::Ask(again) => {
            assert(construct_next(state, host.answer(question)) == (
                in_phase(s, PhaseView::Source { resolution: next.0, mount, rest }),
                ask(again),
            ));
            let inner = lemma_sourcing_ends(
                world,
                done,
                s,
                mount,
                rest,
                next.0,
                again,
                (steps - 1) as nat,
            );
            lemma_run_step(host, here, question, inner.0);
            (inner.0 + 1, inner.1 + 1)
        },
    }
}

/// A construction that turns to the root and ends has listed it, mirrored
/// it and closed as the plain definition says, within the depth `depth`.
pub proof fn lemma_root_ends(
    world: World,
    done: Seq<CommandView>,
    s: ConstructionView,
    steps: nat,
) -> (depth: nat)
    requires
        construct_run(world, done, to_root(s, Seq::empty()), steps) is Some,
    ensures
        rooted(world, done, s.ctx, s.launch, s.policy, depth) == construct_run(
            world,
            done,
            to_root(s, Seq::empty()),
            steps,
        ),
{
    let host = (world.after)(done);
    let here = to_root(s, Seq::empty());
    let question = QueryView::List(root_dir());
    assert(done + Seq::<CommandView>::empty() =~= done);
    assert(steps > 0) by {
        reveal(construct_run);
    }
    lemma_construct_asks(world, done, here.0, Seq::empty(), question, (steps - 1) as nat);
    let next = construct_next(here.0, host.answer(question));
    match host.listing(root_dir()) {
        None => {
            assert(next == construct_abort(here.0, Fatal::ListFailed));
            lemma_construct_ends(world, done, next, (steps - 1) as nat);
            0
        },
        Some(names) => {
            let jobs = root_jobs(s.ctx, names);
            let (mirror, step) = mirror_begin(jobs);
            assert(next == go_on_root(s, mirror, step));
            lemma_rooting_ends(world, done, s, mirror, step, (steps - 1) as nat);
            theorem_mirror_is_right(world, done, jobs, (steps - 1) as nat)
        },
    }
}

/// A construction that turns to the explicit mounts `mounts` and ends has
/// made them and turned to the root as the plain definition says, within
/// the depth `depth`.
pub proof fn lemma_mounts_ends(
    world: World,
    done: Seq<CommandView>,
    s: ConstructionView,
    mounts: Seq<MappingView>,
    steps: nat,
) -> (depth: nat)
    requires
        construct_run(world, done, next_mount(s, mounts, Seq::empty()), steps) is Some,
    ensures
        mounted(world, done, s.ctx, s.launch, s.policy, mounts, depth) == construct_run(
            world,
            done,
            next_mount(s, mounts, Seq::empty()),
            steps,
        ),
    decreases mounts.len(),
{
    if mounts.len() == 0 {
        lemma_root_ends(world, done, s, steps)
    } else {
        let host = (world.after)(done);
        let mount = mounts[0];
        let rest = mounts.skip(1);
        let start = resolve_start(s.ctx.nixdir, mount.source, true);
        let question = QueryView::IsSymlink(mount.source);
        assert(next_mount(s, mounts, Seq::empty()) == (
            in_phase(s, PhaseView::Source { resolution: start.0, mount, rest }),
            ask(question),
        ));
        let first = lemma_sourcing_ends(world, done, s, mount, rest, start.0, question, steps);
        let d1 = theorem_resolution_is_right(host, s.ctx.nixdir, mount.source, true, first.0);
        let left = (steps - first.1) as nat;
        match resolved(host, s.ctx.nixdir, mount.source, true, d1).unwrap() {
            Err(_) => {
                let notice = seq![warn(NoticeView::MissingSource { source: mount.source })];
                assert(done + notice =~= done.push(notice[0]));
                lemma_construct_shifts(
                    world,
                    done,
                    next_mount(s, rest, notice).0,
                    notice,
                    next_mount(s, rest, notice).1.next,
                    left,
                );
                let d2 = lemma_mounts_ends(world, done + notice, s, rest, left);
                let depth = deeper_of(d1, d2);
                lemma_resolved_lasts(host, s.ctx.nixdir, mount.source, true, d1, depth);
                lemma_mounted_lasts(
                    world,
                    done + notice,
                    s.ctx,
                    s.launch,
                    s.policy,
                    rest,
                    d2,
                    depth,
                );
                depth
            },
            Ok(src) => {
                let job = explicit_job(s.ctx, mount, src);
                let before = seq![strict(ActionView::CreateDirAll { path: job.ctx.rootdir })];
                assert(done + before =~= done.push(before[0]));
                let (mirror, step) = mirror_begin(seq![job]);
                let used = lemma_mounting_ends(world, done, s, mirror, step, rest, before, left);
                let d2 = theorem_mirror_is_right(world, done + before, seq![job], used);
                match mirror_list(world, done + before, seq![job], d2).unwrap() {
                    Outcome::Stopped(given, reason) => {
                        let depth = deeper_of(d1, d2);
                        lemma_resolved_lasts(host, s.ctx.nixdir, mount.source, true, d1, depth);
                        lemma_list_lasts(world, done + before, seq![job], d2, depth);
                        depth
                    },
                    Outcome::Done(given) => {
                        let d3 = lemma_mounts_ends(
                            world,
                            given,
                            s,
                            rest,
                            (left - used) as nat,
                        );
                        let depth = deeper_of(d1, deeper_of(d2, d3));
                        lemma_resolved_lasts(host, s.ctx.nixdir, mount.source, true, d1, depth);
                        lemma_list_lasts(world, done + before, seq![job], d2, depth);
                        lemma_mounted_lasts(
                            world,
                            given,
                            s.ctx,
                            s.launch,
                            s.policy,
                            rest,
                            d3,
                            depth,
                        );
                        depth
                    },
                }
            },
        }
    }
}

/// Whatever a construction ends with, a construction does by the plain
/// definition.
pub proof fn theorem_construction_is_right(
    world: World,
    ctx: RunChrootView,
    launch: LaunchView,
    policy: Option<PathConfigView>,
    steps: nat,
) -> (depth: nat)
    requires
        construct_run(world, Seq::empty(), construct_start(ctx, launch, policy), steps) is Some,
    ensures
        constructed(world, ctx, launch, policy, depth) == construct_run(
            world,
            Seq::empty(),
            construct_start(ctx, launch, policy),
            steps,
        ),
{
    let start = construct_start(ctx, launch, policy);
    let s = start.0;
    let first = seq![strict(ActionView::Unshare)];
    assert(Seq::<CommandView>::empty() + first =~= first);
    let opengl = QueryView::IsDir(joined(ctx.nixdir, opengl_source()));
    let found = (world.after)(first).dirs.contains(joined(ctx.nixdir, opengl_source()));
    let commands = opengl_commands(ctx, found);
    let done = first + commands;
    assert(steps >= 1) by {
        reveal(construct_run);
    }
    lemma_construct_asks(world, Seq::empty(), s, first, opengl, (steps - 1) as nat);
    let second = construct_next(s, (world.after)(first).answer(opengl));
    match policy {
        None => {
            assert(second == to_root(s, commands));
            lemma_construct_shifts(
                world,
                first,
                to_root(s, commands).0,
                commands,
                to_root(s, commands).1.next,
                (steps - 1) as nat,
            );
            lemma_root_ends(world, done, s, (steps - 1) as nat)
        },
        Some(given) => {
            let host = (world.after)(done);
            let name = QueryView::UserName(launch.uid);
            let asking = in_phase(s, PhaseView::User);
            assert(second == (asking, StepView { commands, next: NextView::Ask(name) }));
            assert(steps >= 2) by {
                reveal(construct_run);
            }
            lemma_construct_asks(world, first, asking, commands, name, (steps - 2) as nat);
            let third = construct_next(asking, host.answer(name));
            match host.user(launch.uid) {
                None => {
                    assert(third == construct_abort(asking, Fatal::UnknownUser));
                    lemma_construct_ends(world, done, third, (steps - 2) as nat);
                    assert(done + Seq::<CommandView>::empty() =~= done);
                    0
                },
                Some(user) => {
                    let dir = profile_dir(ctx.nixdir, user);
                    let resolving = resolve_start(ctx.nixdir, dir, false);
                    let question = QueryView::IsSymlink(dir);
                    assert(third == (
                        in_phase(
                            s,
                            PhaseView::Profile { user, resolution: resolving.0 },
                        ),
                        ask(question),
                    ));
                    let profiling = lemma_profiling_ends(
                        world,
                        done,
                        s,
                        user,
                        resolving.0,
                        question,
                        (steps - 2) as nat,
                    );
                    let d1 = theorem_resolution_is_right(host, ctx.nixdir, dir, false, profiling.0);
                    let left = (steps - 2 - profiling.1) as nat;
                    match resolved(host, ctx.nixdir, dir, false, d1).unwrap() {
                        Ok(found_dir) => {
                            let mounts = explicit_mounts(given, Some(found_dir));
                            let d2 = lemma_mounts_ends(world, done, s, mounts, left);
                            let depth = deeper_of(d1, d2);
                            lemma_resolved_lasts(host, ctx.nixdir, dir, false, d1, depth);
                            lemma_mounted_lasts(
                                world,
                                done,
                                ctx,
                                launch,
                                given,
                                mounts,
                                d2,
                                depth,
                            );
                            depth
                        },
                        Err(_) => {
                            let notices = profile_notices(given.profile, user);
                            let mounts = explicit_mounts(given, None);
                            lemma_construct_shifts(
                                world,
                                done,
                                next_mount(s, mounts, notices).0,
                                notices,
                                next_mount(s, mounts, notices).1.next,
                                left,
                            );
                            let d2 = lemma_mounts_ends(world, done + notices, s, mounts, left);
                            let depth = deeper_of(d1, d2);
                            lemma_resolved_lasts(host, ctx.nixdir, dir, false, d1, depth);
                            lemma_mounted_lasts(
                                world,
                                done + notices,
                                ctx,
                                launch,
                                given,
                                mounts,
                                d2,
                                depth,
                            );
                            depth
                        },
                    }
                },
            }
        },
    }
}

} // verus!
