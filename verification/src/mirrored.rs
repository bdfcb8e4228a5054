//! What mirroring means on a host that changes only by the commands of the
//! engine, and that a mirror engine, which keeps a list of what is still to
//! do, gives the commands that the plain definition asks for.

use crate::host::{CommandView, Fatal, NextView, NodeKind, QueryView, StepView};
use crate::meaning::{
    lemma_resolved_lasts, lemma_run_done, lemma_run_step, resolve_run, resolved,
    theorem_resolution_computes, theorem_resolution_is_right, Host,
};
use crate::mirror::{
    ask, directory_commands, file_commands, mirror_abort, mirror_begin, mirror_finish,
    mirror_next, symlink_commands, treated_as, JobView, MirrorView, StageView,
};
use crate::names::nix_root;
use crate::resolve::{resolve_next, resolve_start, ResolutionView, ResolveError, ResolvedView};
use vstd::prelude::*;

verus! {

/// A host on which commands are carried out: what it answers once the
/// commands `done` have been carried out, in their order.
pub struct World {
    pub after: spec_fn(Seq<CommandView>) -> Host,
}

/// How an engine ends: with all its commands given, or stopped for a
/// reason. Either way with the commands that were given up to there.
pub enum Outcome {
    Done(Seq<CommandView>),
    Stopped(Seq<CommandView>, Fatal),
}

/// The job with its source found: a source under `/nix` is resolved into
/// the store, stopping at the first link target outside `/nix`; any other
/// source is where it is.
pub open spec fn located(host: Host, job: JobView, depth: nat) -> Option<Result<JobView, Fatal>> {
    if nix_root().is_prefix_of(job.entry.path()) {
        match resolved(host, job.ctx.nixdir, job.entry.path(), true, depth) {
            None => None,
            Some(Ok(src)) => Some(Ok(job.moved_to(src))),
            Some(Err(_)) => Some(Err(Fatal::Unresolvable)),
        }
    } else {
        Some(Ok(job))
    }
}

/// What mirroring one entry whose source is found does, behind the
/// commands `done`, if that can be told within `depth` nested directories
/// and resolutions:
///
/// - a directory whose place is free is created there and mounted over; one
///   whose place a directory has is merged into it: its children are
///   mirrored into that directory, in their order; one whose place
///   something else has is left out;
/// - a file whose place is free is created there and mounted over;
/// - a symbolic link whose place is free is created there, pointing to
///   what it resolves to;
/// - anything else stops the engine.
pub open spec fn mirror_found(
    world: World,
    done: Seq<CommandView>,
    job: JobView,
    depth: nat,
) -> Option<Outcome>
    decreases depth, 0nat,
{
    let host = (world.after)(done);
    let source = job.entry.path();
    let place = job.mount_point();
    match host.kind(source) {
        None => Some(Outcome::Stopped(done, Fatal::NoMetadata)),
        Some(kind) => match treated_as(kind, source) {
            NodeKind::Directory => if !host.present.contains(place) {
                Some(Outcome::Done(done + directory_commands(job, false)))
            } else if !host.dirs.contains(place) {
                Some(Outcome::Done(done))
            } else {
                match host.listing(source) {
                    None => Some(Outcome::Stopped(done, Fatal::ListFailed)),
                    Some(names) => if depth == 0 {
                        None
                    } else {
                        mirror_list(world, done, job.children(names), (depth - 1) as nat)
                    },
                }
            },
            NodeKind::File => Some(
                Outcome::Done(done + file_commands(job, host.present.contains(place))),
            ),
            NodeKind::Symlink => if host.present.contains(place) {
                Some(Outcome::Done(done))
            } else {
                match resolved(host, job.ctx.nixdir, source, true, depth) {
                    None => None,
                    Some(Ok(target)) => Some(Outcome::Done(done + symlink_commands(job, target))),
                    Some(Err(_)) => Some(Outcome::Stopped(done, Fatal::BrokenLink)),
                }
            },
            NodeKind::Other => Some(Outcome::Stopped(done, Fatal::UnknownKind)),
        },
    }
}

/// What mirroring one entry does, behind the commands `done`: its source
/// is found, and then it is mirrored as `mirror_found` says.
pub open spec fn mirror_one(
    world: World,
    done: Seq<CommandView>,
    job: JobView,
    depth: nat,
) -> Option<Outcome>
    decreases depth, 1nat,
{
    match located((world.after)(done), job, depth) {
        None => None,
        Some(Err(reason)) => Some(Outcome::Stopped(done, reason)),
        Some(Ok(found)) => mirror_found(world, done, found, depth),
    }
}

/// What mirroring the entries `jobs` does, one after the other, behind the
/// commands `done`. The first entry that stops the engine ends it.
pub open spec fn mirror_list(
    world: World,
    done: Seq<CommandView>,
    jobs: Seq<JobView>,
    depth: nat,
) -> Option<Outcome>
    decreases depth, jobs.len() + 2,
{
    if jobs.len() == 0 {
        Some(Outcome::Done(done))
    } else {
        match mirror_one(world, done, jobs[0], depth) {
            None => None,
            Some(Outcome::Stopped(given, reason)) => Some(Outcome::Stopped(given, reason)),
            Some(Outcome::Done(given)) => mirror_list(world, given, jobs.skip(1), depth),
        }
    }
}

/// How a mirror engine that has come to `at`, behind the commands `done`,
/// ends in `world`, if it ends within `steps` answers.
#[verifier::opaque]
pub open spec fn mirror_run(
    world: World,
    done: Seq<CommandView>,
    at: (MirrorView, StepView),
    steps: nat,
) -> Option<Outcome>
    decreases steps,
{
    let given = done + at.1.commands;
    match at.1.next {
        NextView::Done => Some(Outcome::Done(given)),
        NextView::Abort(reason) => Some(Outcome::Stopped(given, reason)),
        NextView::Ask(question) => if steps == 0 {
            None
        } else {
            mirror_run(
                world,
                given,
                mirror_next(at.0, (world.after)(given).answer(question)),
                (steps - 1) as nat,
            )
        },
    }
}

/// An engine that asks without giving a command goes on with the answer of
/// the host, which uses up one answer.
pub proof fn lemma_mirror_asks(
    world: World,
    done: Seq<CommandView>,
    m: MirrorView,
    question: QueryView,
    steps: nat,
)
    ensures
        mirror_run(world, done, (m, ask(question)), 0) is None,
        mirror_run(world, done, (m, ask(question)), steps + 1) == mirror_run(
            world,
            done,
            mirror_next(m, (world.after)(done).answer(question)),
            steps,
        ),
{
    reveal(mirror_run);
    assert(done + ask(question).commands =~= done);
}

/// An engine that has dealt with an entry by `commands` goes on with the
/// next as if behind those commands.
pub proof fn lemma_mirror_finishes(
    world: World,
    done: Seq<CommandView>,
    queue: Seq<JobView>,
    commands: Seq<CommandView>,
    steps: nat,
)
    ensures
        mirror_run(world, done, mirror_finish(queue, commands), steps) == mirror_run(
            world,
            done + commands,
            mirror_begin(queue),
            steps,
        ),
{
    reveal(mirror_run);
    let (m, step) = mirror_begin(queue);
    assert(step.commands =~= Seq::<CommandView>::empty());
    assert((done + commands) + step.commands =~= done + commands);
}

/// An engine that stops ends stopped, with the commands given so far.
pub proof fn lemma_mirror_aborts(
    world: World,
    done: Seq<CommandView>,
    queue: Seq<JobView>,
    reason: Fatal,
    steps: nat,
)
    ensures
        mirror_run(world, done, mirror_abort(queue, reason), steps) == Some(
            Outcome::Stopped(done, reason),
        ),
{
    reveal(mirror_run);
    assert(done + mirror_abort(queue, reason).1.commands =~= done);
}

/// An engine with nothing to do is done.
pub proof fn lemma_mirror_idle(world: World, done: Seq<CommandView>, steps: nat)
    ensures
        mirror_run(world, done, mirror_begin(Seq::empty()), steps) == Some(Outcome::Done(done)),
{
    reveal(mirror_run);
    assert(done + mirror_begin(Seq::empty()).1.commands =~= done);
}

/// The engine that asks what the source of `job` is.
pub open spec fn at_kind(queue: Seq<JobView>, job: JobView) -> (MirrorView, StepView) {
    (MirrorView { queue, stage: StageView::Kind { job } }, ask(QueryView::Kind(job.entry.path())))
}

/// Where the engine stands once the source of `job`, which lies under
/// `/nix`, has resolved to `result`.
pub open spec fn after_locating(
    queue: Seq<JobView>,
    job: JobView,
    result: Result<Seq<Seq<u8>>, ResolveError>,
) -> (MirrorView, StepView) {
    match result {
        Ok(src) => at_kind(queue, job.moved_to(src)),
        Err(_) => mirror_abort(queue, Fatal::Unresolvable),
    }
}

/// Where the engine stands once the symbolic link of `job` has resolved to
/// `result`.
pub open spec fn after_target(
    queue: Seq<JobView>,
    job: JobView,
    result: Result<Seq<Seq<u8>>, ResolveError>,
) -> (MirrorView, StepView) {
    match result {
        Ok(target) => mirror_finish(queue, symlink_commands(job, target)),
        Err(_) => mirror_abort(queue, Fatal::BrokenLink),
    }
}

/// An engine that resolves the source of an entry goes through the
/// resolution, answer by answer, and then stands where `after_locating`
/// says.
pub proof fn lemma_locating(
    world: World,
    done: Seq<CommandView>,
    queue: Seq<JobView>,
    job: JobView,
    resolution: ResolutionView,
    question: QueryView,
    steps: nat,
    more: nat,
) -> (used: nat)
    requires
        resolve_run((world.after)(done), (resolution, ResolvedView::Ask(question)), steps)
            is Some,
    ensures
        mirror_run(
            world,
            done,
            (MirrorView { queue, stage: StageView::Resolving { job, resolution } }, ask(question)),
            used + more,
        ) == mirror_run(
            world,
            done,
            after_locating(
                queue,
                job,
                resolve_run(
                    (world.after)(done),
                    (resolution, ResolvedView::Ask(question)),
                    steps,
                ).unwrap(),
            ),
            more,
        ),
    decreases steps,
{
    let host = (world.after)(done);
    let here = (resolution, ResolvedView::Ask(question));
    let m = MirrorView { queue, stage: StageView::Resolving { job, resolution } };
    lemma_run_step(host, here, question, 0);
    assert(steps > 0);
    lemma_run_step(host, here, question, (steps - 1) as nat);
    let next = resolve_next(resolution, host.answer(question));
    match next.1 {
        ResolvedView::Done(result) => {
            lemma_run_done(host, next, result, (steps - 1) as nat);
            lemma_mirror_asks(world, done, m, question, more);
            assert(mirror_next(m, host.answer(question)) == after_locating(queue, job, result));
            1
        },
        ResolvedView::Ask(again) => {
            let used = lemma_locating(
                world,
                done,
                queue,
                job,
                next.0,
                again,
                (steps - 1) as nat,
                more,
            );
            lemma_mirror_asks(world, done, m, question, used + more);
            assert(mirror_next(m, host.answer(question)) == (
                MirrorView { queue, stage: StageView::Resolving { job, resolution: next.0 } },
                ask(again),
            ));
            used + 1
        },
    }
}

/// An engine that resolves the target of a symbolic link goes through the
/// resolution, answer by answer, and then stands where `after_target`
/// says.
pub proof fn lemma_targeting(
    world: World,
    done: Seq<CommandView>,
    queue: Seq<JobView>,
    job: JobView,
    resolution: ResolutionView,
    question: QueryView,
    steps: nat,
    more: nat,
) -> (used: nat)
    requires
        resolve_run((world.after)(done), (resolution, ResolvedView::Ask(question)), steps)
            is Some,
    ensures
        mirror_run(
            world,
            done,
            (MirrorView { queue, stage: StageView::LinkTarget { job, resolution } }, ask(question)),
            used + more,
        ) == mirror_run(
            world,
            done,
            after_target(
                queue,
                job,
                resolve_run(
                    (world.after)(done),
                    (resolution, ResolvedView::Ask(question)),
                    steps,
                ).unwrap(),
            ),
            more,
        ),
    decreases steps,
{
    let host = (world.after)(done);
    let here = (resolution, ResolvedView::Ask(question));
    let m = MirrorView { queue, stage: StageView::LinkTarget { job, resolution } };
    lemma_run_step(host, here, question, 0);
    assert(steps > 0);
    lemma_run_step(host, here, question, (steps - 1) as nat);
    let next = resolve_next(resolution, host.answer(question));
    match next.1 {
        ResolvedView::Done(result) => {
            lemma_run_done(host, next, result, (steps - 1) as nat);
            lemma_mirror_asks(world, done, m, question, more);
            assert(mirror_next(m, host.answer(question)) == after_target(queue, job, result));
            1
        },
        ResolvedView::Ask(again) => {
            let used = lemma_targeting(
                world,
                done,
                queue,
                job,
                next.0,
                again,
                (steps - 1) as nat,
                more,
            );
            lemma_mirror_asks(world, done, m, question, used + more);
            assert(mirror_next(m, host.answer(question)) == (
                MirrorView { queue, stage: StageView::LinkTarget { job, resolution: next.0 } },
                ask(again),
            ));
            used + 1
        },
    }
}

/// How an engine goes on, with `queue` still to do, when what it was doing
/// has come to `outcome`.
pub open spec fn goes_on(world: World, outcome: Outcome, queue: Seq<JobView>, more: nat) -> Option<
    Outcome,
> {
    match outcome {
        Outcome::Done(given) => mirror_run(world, given, mirror_begin(queue), more),
        Outcome::Stopped(given, reason) => Some(Outcome::Stopped(given, reason)),
    }
}

/// The engine that has asked whether the place of `job` is taken, and by
/// what stage.
pub open spec fn at_place(queue: Seq<JobView>, stage: StageView, job: JobView) -> (
    MirrorView,
    StepView,
) {
    (MirrorView { queue, stage }, ask(QueryView::Exists(job.mount_point())))
}

/// An engine that knows where the source of an entry is mirrors the entry
/// as the plain definition says, and then goes on with what is still to
/// do.
pub proof fn lemma_found(
    world: World,
    done: Seq<CommandView>,
    queue: Seq<JobView>,
    job: JobView,
    depth: nat,
    more: nat,
) -> (used: nat)
    requires
        mirror_found(world, done, job, depth) is Some,
    ensures
        mirror_run(world, done, at_kind(queue, job), used + more) == goes_on(
            world,
            mirror_found(world, done, job, depth).unwrap(),
            queue,
            more,
        ),
    decreases depth, 0nat,
{
    let host = (world.after)(done);
    let source = job.entry.path();
    let place = job.mount_point();
    let m0 = at_kind(queue, job).0;
    let next = mirror_next(m0, host.answer(QueryView::Kind(source)));
    match host.kind(source) {
        None => {
            assert(next == mirror_abort(queue, Fatal::NoMetadata));
            lemma_mirror_asks(world, done, m0, QueryView::Kind(source), more);
            lemma_mirror_aborts(world, done, queue, Fatal::NoMetadata, more);
            1
        },
        Some(kind) => match treated_as(kind, source) {
            NodeKind::Directory => {
                let c1 = at_place(queue, StageView::DirExists { job }, job);
                assert(next == c1);
                let next2 = mirror_next(c1.0, host.answer(QueryView::Exists(place)));
                if !host.present.contains(place) {
                    let commands = directory_commands(job, false);
                    assert(next2 == mirror_finish(queue, commands));
                    lemma_mirror_asks(world, done, m0, QueryView::Kind(source), 1 + more);
                    lemma_mirror_asks(world, done, c1.0, QueryView::Exists(place), more);
                    lemma_mirror_finishes(world, done, queue, commands, more);
                    2
                } else {
                    let c2 = (
                        MirrorView { queue, stage: StageView::DirIsDir { job } },
                        ask(QueryView::IsDir(place)),
                    );
                    assert(next2 == c2);
                    let next3 = mirror_next(c2.0, host.answer(QueryView::IsDir(place)));
                    if !host.dirs.contains(place) {
                        assert(next3 == mirror_finish(queue, Seq::empty()));
                        lemma_mirror_asks(world, done, m0, QueryView::Kind(source), 2 + more);
                        lemma_mirror_asks(world, done, c1.0, QueryView::Exists(place), 1 + more);
                        lemma_mirror_asks(world, done, c2.0, QueryView::IsDir(place), more);
                        lemma_mirror_finishes(world, done, queue, Seq::empty(), more);
                        assert(done + Seq::<CommandView>::empty() =~= done);
                        3
                    } else {
                        let c3 = (
                            MirrorView { queue, stage: StageView::Listing { job } },
                            ask(QueryView::List(source)),
                        );
                        assert(next3 == c3);
                        let next4 = mirror_next(c3.0, host.answer(QueryView::List(source)));
                        match host.listing(source) {
                            None => {
                                assert(next4 == mirror_abort(queue, Fatal::ListFailed));
                                lemma_mirror_asks(
                                    world,
                                    done,
                                    m0,
                                    QueryView::Kind(source),
                                    3 + more,
                                );
                                lemma_mirror_asks(
                                    world,
                                    done,
                                    c1.0,
                                    QueryView::Exists(place),
                                    2 + more,
                                );
                                lemma_mirror_asks(
                                    world,
                                    done,
                                    c2.0,
                                    QueryView::IsDir(place),
                                    1 + more,
                                );
                                lemma_mirror_asks(world, done, c3.0, QueryView::List(source), more);
                                lemma_mirror_aborts(world, done, queue, Fatal::ListFailed, more);
                                4
                            },
                            Some(names) => {
                                let children = job.children(names);
                                assert(next4 == mirror_finish(children + queue, Seq::empty()));
                                let inner = lemma_list(
                                    world,
                                    done,
                                    children,
                                    queue,
                                    (depth - 1) as nat,
                                    more,
                                );
                                lemma_mirror_asks(
                                    world,
                                    done,
                                    m0,
                                    QueryView::Kind(source),
                                    3 + inner + more,
                                );
                                lemma_mirror_asks(
                                    world,
                                    done,
                                    c1.0,
                                    QueryView::Exists(place),
                                    2 + inner + more,
                                );
                                lemma_mirror_asks(
                                    world,
                                    done,
                                    c2.0,
                                    QueryView::IsDir(place),
                                    1 + inner + more,
                                );
                                lemma_mirror_asks(
                                    world,
                                    done,
                                    c3.0,
                                    QueryView::List(source),
                                    inner + more,
                                );
                                lemma_mirror_finishes(
                                    world,
                                    done,
                                    children + queue,
                                    Seq::empty(),
                                    inner + more,
                                );
                                assert(done + Seq::<CommandView>::empty() =~= done);
                                4 + inner
                            },
                        }
                    }
                }
            },
            NodeKind::File => {
                let c1 = at_place(queue, StageView::FileExists { job }, job);
                assert(next == c1);
                let commands = file_commands(job, host.present.contains(place));
                assert(mirror_next(c1.0, host.answer(QueryView::Exists(place))) == mirror_finish(
                    queue,
                    commands,
                ));
                lemma_mirror_asks(world, done, m0, QueryView::Kind(source), 1 + more);
                lemma_mirror_asks(world, done, c1.0, QueryView::Exists(place), more);
                lemma_mirror_finishes(world, done, queue, commands, more);
                2
            },
            NodeKind::Symlink => {
                let c1 = at_place(queue, StageView::LinkExists { job }, job);
                assert(next == c1);
                let next2 = mirror_next(c1.0, host.answer(QueryView::Exists(place)));
                if host.present.contains(place) {
                    assert(next2 == mirror_finish(queue, Seq::empty()));
                    lemma_mirror_asks(world, done, m0, QueryView::Kind(source), 1 + more);
                    lemma_mirror_asks(world, done, c1.0, QueryView::Exists(place), more);
                    lemma_mirror_finishes(world, done, queue, Seq::empty(), more);
                    assert(done + Seq::<CommandView>::empty() =~= done);
                    2
                } else {
                    let start = resolve_start(job.ctx.nixdir, source, true);
                    let question = QueryView::IsSymlink(source);
                    let c2 = (
                        MirrorView {
                            queue,
                            stage: StageView::LinkTarget { job, resolution: start.0 },
                        },
                        ask(question),
                    );
                    assert(next2 == c2);
                    let steps = theorem_resolution_computes(
                        host,
                        job.ctx.nixdir,
                        source,
                        true,
                        depth,
                    );
                    let result = resolved(host, job.ctx.nixdir, source, true, depth).unwrap();
                    let inner = lemma_targeting(
                        world,
                        done,
                        queue,
                        job,
                        start.0,
                        question,
                        steps,
                        more,
                    );
                    lemma_mirror_asks(world, done, m0, QueryView::Kind(source), 1 + inner + more);
                    lemma_mirror_asks(world, done, c1.0, QueryView::Exists(place), inner + more);
                    match result {
                        Ok(target) => {
                            lemma_mirror_finishes(
                                world,
                                done,
                                queue,
                                symlink_commands(job, target),
                                more,
                            );
                        },
                        Err(_) => {
                            lemma_mirror_aborts(world, done, queue, Fatal::BrokenLink, more);
                        },
                    }
                    2 + inner
                }
            },
            NodeKind::Other => {
                assert(next == mirror_abort(queue, Fatal::UnknownKind));
                lemma_mirror_asks(world, done, m0, QueryView::Kind(source), more);
                lemma_mirror_aborts(world, done, queue, Fatal::UnknownKind, more);
                1
            },
        },
    }
}

/// An engine that takes up the first of `all` mirrors it as the plain
/// definition says, and then goes on with the rest.
pub proof fn lemma_one(
    world: World,
    done: Seq<CommandView>,
    all: Seq<JobView>,
    depth: nat,
    more: nat,
) -> (used: nat)
    requires
        all.len() > 0,
        mirror_one(world, done, all[0], depth) is Some,
    ensures
        mirror_run(world, done, mirror_begin(all), used + more) == goes_on(
            world,
            mirror_one(world, done, all[0], depth).unwrap(),
            all.skip(1),
            more,
        ),
    decreases depth, 1nat,
{
    let host = (world.after)(done);
    let job = all[0];
    let queue = all.skip(1);
    let source = job.entry.path();
    if nix_root().is_prefix_of(source) {
        let start = resolve_start(job.ctx.nixdir, source, true);
        let question = QueryView::IsSymlink(source);
        assert(mirror_begin(all) == (
            MirrorView { queue, stage: StageView::Resolving { job, resolution: start.0 } },
            ask(question),
        ));
        let steps = theorem_resolution_computes(host, job.ctx.nixdir, source, true, depth);
        let result = resolved(host, job.ctx.nixdir, source, true, depth).unwrap();
        match result {
            Ok(src) => {
                let inner = lemma_found(world, done, queue, job.moved_to(src), depth, more);
                let first = lemma_locating(
                    world,
                    done,
                    queue,
                    job,
                    start.0,
                    question,
                    steps,
                    inner + more,
                );
                first + inner
            },
            Err(_) => {
                let first = lemma_locating(
                    world,
                    done,
                    queue,
                    job,
                    start.0,
                    question,
                    steps,
                    more,
                );
                lemma_mirror_aborts(world, done, queue, Fatal::Unresolvable, more);
                first
            },
        }
    } else {
        assert(mirror_begin(all) == at_kind(queue, job));
        lemma_found(world, done, queue, job, depth, more)
    }
}

/// An engine that has `jobs` to do before `queue` mirrors them one after
/// the other as the plain definition says, and then goes on with `queue`.
pub proof fn lemma_list(
    world: World,
    done: Seq<CommandView>,
    jobs: Seq<JobView>,
    queue: Seq<JobView>,
    depth: nat,
    more: nat,
) -> (used: nat)
    requires
        mirror_list(world, done, jobs, depth) is Some,
    ensures
        mirror_run(world, done, mirror_begin(jobs + queue), used + more) == goes_on(
            world,
            mirror_list(world, done, jobs, depth).unwrap(),
            queue,
            more,
        ),
    decreases depth, jobs.len() + 2,
{
    if jobs.len() == 0 {
        assert(jobs + queue =~= queue);
        0
    } else {
        let all = jobs + queue;
        assert(all[0] == jobs[0]);
        assert(all.skip(1) =~= jobs.skip(1) + queue);
        match mirror_one(world, done, jobs[0], depth).unwrap() {
            Outcome::Stopped(given, reason) => lemma_one(world, done, all, depth, more),
            Outcome::Done(given) => {
                let rest = lemma_list(world, given, jobs.skip(1), queue, depth, more);
                let first = lemma_one(world, done, all, depth, rest + more);
                first + rest
            },
        }
    }
}

/// Whatever mirroring the entries does by the plain definition, the engine
/// that is given the entries ends with, after some number of answers of
/// the host: the same commands, in the same order, and the same end.
pub proof fn theorem_mirror_computes(
    world: World,
    done: Seq<CommandView>,
    jobs: Seq<JobView>,
    depth: nat,
) -> (steps: nat)
    requires
        mirror_list(world, done, jobs, depth) is Some,
    ensures
        mirror_run(world, done, mirror_begin(jobs), steps) == mirror_list(
            world,
            done,
            jobs,
            depth,
        ),
{
    let steps = lemma_list(world, done, jobs, Seq::empty(), depth, 0);
    assert(jobs + Seq::<JobView>::empty() =~= jobs);
    match mirror_list(world, done, jobs, depth).unwrap() {
        Outcome::Done(given) => {
            lemma_mirror_idle(world, given, 0);
        },
        Outcome::Stopped(given, reason) => {},
    }
    steps
}

/// What mirroring a found entry does within some depth, it does within
/// any greater depth.
pub proof fn lemma_found_lasts(
    world: World,
    done: Seq<CommandView>,
    job: JobView,
    depth: nat,
    deeper: nat,
)
    requires
        depth <= deeper,
        mirror_found(world, done, job, depth) is Some,
    ensures
        mirror_found(world, done, job, deeper) == mirror_found(world, done, job, depth),
    decreases depth, 0nat,
{
    let host = (world.after)(done);
    let source = job.entry.path();
    let place = job.mount_point();
    match host.kind(source) {
        None => {},
        Some(kind) => match treated_as(kind, source) {
            NodeKind::Directory => {
                if host.present.contains(place) && host.dirs.contains(place) {
                    match host.listing(source) {
                        None => {},
                        Some(names) => {
                            lemma_list_lasts(
                                world,
                                done,
                                job.children(names),
                                (depth - 1) as nat,
                                (deeper - 1) as nat,
                            );
                        },
                    }
                }
            },
            NodeKind::Symlink => {
                if !host.present.contains(place) {
                    lemma_resolved_lasts(host, job.ctx.nixdir, source, true, depth, deeper);
                }
            },
            _ => {},
        },
    }
}

/// What mirroring entries does within some depth, it does within any
/// greater depth.
pub proof fn lemma_list_lasts(
    world: World,
    done: Seq<CommandView>,
    jobs: Seq<JobView>,
    depth: nat,
    deeper: nat,
)
    requires
        depth <= deeper,
        mirror_list(world, done, jobs, depth) is Some,
    ensures
        mirror_list(world, done, jobs, deeper) == mirror_list(world, done, jobs, depth),
    decreases depth, jobs.len() + 2,
{
    if jobs.len() > 0 {
        lemma_one_lasts(world, done, jobs[0], depth, deeper);
        match mirror_one(world, done, jobs[0], depth).unwrap() {
            Outcome::Stopped(..) => {},
            Outcome::Done(given) => {
                lemma_list_lasts(world, given, jobs.skip(1), depth, deeper);
            },
        }
    }
}

/// What mirroring one entry does within some depth, it does within any
/// greater depth.
pub proof fn lemma_one_lasts(
    world: World,
    done: Seq<CommandView>,
    job: JobView,
    depth: nat,
    deeper: nat,
)
    requires
        depth <= deeper,
        mirror_one(world, done, job, depth) is Some,
    ensures
        mirror_one(world, done, job, deeper) == mirror_one(world, done, job, depth),
    decreases depth, 1nat,
{
    let host = (world.after)(done);
    if nix_root().is_prefix_of(job.entry.path()) {
        lemma_resolved_lasts(host, job.ctx.nixdir, job.entry.path(), true, depth, deeper);
    }
    match located(host, job, depth).unwrap() {
        Err(_) => {},
        Ok(found) => {
            lemma_found_lasts(world, done, found, depth, deeper);
        },
    }
}

/// An engine that resolves the source of an entry and ends has, on its
/// way, ended the resolution: within `out.0` answers, of which the engine
/// used `out.1`.
pub proof fn lemma_locating_ends(
    world: World,
    done: Seq<CommandView>,
    queue: Seq<JobView>,
    job: JobView,
    resolution: ResolutionView,
    question: QueryView,
    steps: nat,
) -> (out: (nat, nat))
    requires
        mirror_run(
            world,
            done,
            (MirrorView { queue, stage: StageView::Resolving { job, resolution } }, ask(question)),
            steps,
        ) is Some,
    ensures
        resolve_run((world.after)(done), (resolution, ResolvedView::Ask(question)), out.0)
            is Some,
        1 <= out.1 <= steps,
        mirror_run(
            world,
            done,
            (MirrorView { queue, stage: StageView::Resolving { job, resolution } }, ask(question)),
            steps,
        ) == mirror_run(
            world,
            done,
            after_locating(
                queue,
                job,
                resolve_run(
                    (world.after)(done),
                    (resolution, ResolvedView::Ask(question)),
                    out.0,
                ).unwrap(),
            ),
            (steps - out.1) as nat,
        ),
    decreases steps,
{
    let host = (world.after)(done);
    let here = (resolution, ResolvedView::Ask(question));
    let m = MirrorView { queue, stage: StageView::Resolving { job, resolution } };
    lemma_mirror_asks(world, done, m, question, 0);
    assert(steps > 0);
    lemma_mirror_asks(world, done, m, question, (steps - 1) as nat);
    let next = resolve_next(resolution, host.answer(question));
    match next.1 {
        ResolvedView::Done(result) => {
            lemma_run_step(host, here, question, 0);
            lemma_run_done(host, next, result, 0);
            assert(mirror_next(m, host.answer(question)) == after_locating(queue, job, result));
            (1, 1)
        },
        ResolvedView::Ask(again) => {
            assert(mirror_next(m, host.answer(question)) == (
                MirrorView { queue, stage: StageView::Resolving { job, resolution: next.0 } },
                ask(again),
            ));
            let inner = lemma_locating_ends(
                world,
                done,
                queue,
                job,
                next.0,
                again,
                (steps - 1) as nat,
            );
            lemma_run_step(host, here, question, inner.0);
            (inner.0 + 1, inner.1 + 1)
        },
    }
}

/// An engine that resolves the target of a symbolic link and ends has, on
/// its way, ended the resolution: within `out.0` answers, of which the
/// engine used `out.1`.
pub proof fn lemma_targeting_ends(
    world: World,
    done: Seq<CommandView>,
    queue: Seq<JobView>,
    job: JobView,
    resolution: ResolutionView,
    question: QueryView,
    steps: nat,
) -> (out: (nat, nat))
    requires
        mirror_run(
            world,
            done,
            (MirrorView { queue, stage: StageView::LinkTarget { job, resolution } }, ask(question)),
            steps,
        ) is Some,
    ensures
        resolve_run((world.after)(done), (resolution, ResolvedView::Ask(question)), out.0)
            is Some,
        1 <= out.1 <= steps,
        mirror_run(
            world,
            done,
            (MirrorView { queue, stage: StageView::LinkTarget { job, resolution } }, ask(question)),
            steps,
        ) == mirror_run(
            world,
            done,
            after_target(
                queue,
                job,
                resolve_run(
                    (world.after)(done),
                    (resolution, ResolvedView::Ask(question)),
                    out.0,
                ).unwrap(),
            ),
            (steps - out.1) as nat,
        ),
    decreases steps,
{
    let host = (world.after)(done);
    let here = (resolution, ResolvedView::Ask(question));
    let m = MirrorView { queue, stage: StageView::LinkTarget { job, resolution } };
    lemma_mirror_asks(world, done, m, question, 0);
    assert(steps > 0);
    lemma_mirror_asks(world, done, m, question, (steps - 1) as nat);
    let next = resolve_next(resolution, host.answer(question));
    match next.1 {
        ResolvedView::Done(result) => {
            lemma_run_step(host, here, question, 0);
            lemma_run_done(host, next, result, 0);
            assert(mirror_next(m, host.answer(question)) == after_target(queue, job, result));
            (1, 1)
        },
        ResolvedView::Ask(again) => {
            assert(mirror_next(m, host.answer(question)) == (
                MirrorView { queue, stage: StageView::LinkTarget { job, resolution: next.0 } },
                ask(again),
            ));
            let inner = lemma_targeting_ends(
                world,
                done,
                queue,
                job,
                next.0,
                again,
                (steps - 1) as nat,
            );
            lemma_run_step(host, here, question, inner.0);
            (inner.0 + 1, inner.1 + 1)
        },
    }
}

/// An engine that knows where the source of an entry is, and ends, has on
/// its way mirrored the entry as the plain definition says, within the
/// depth `out.0` and with `out.1` answers.
pub proof fn lemma_found_ends(
    world: World,
    done: Seq<CommandView>,
    queue: Seq<JobView>,
    job: JobView,
    steps: nat,
) -> (out: (nat, nat))
    requires
        mirror_run(world, done, at_kind(queue, job), steps) is Some,
    ensures
        mirror_found(world, done, job, out.0) is Some,
        1 <= out.1 <= steps,
        mirror_run(world, done, at_kind(queue, job), steps) == goes_on(
            world,
            mirror_found(world, done, job, out.0).unwrap(),
            queue,
            (steps - out.1) as nat,
        ),
    decreases steps, 0nat,
{
    let host = (world.after)(done);
    let source = job.entry.path();
    let place = job.mount_point();
    let m0 = at_kind(queue, job).0;
    let ask_kind = QueryView::Kind(source);
    let ask_place = QueryView::Exists(place);
    lemma_mirror_asks(world, done, m0, ask_kind, 0);
    assert(steps >= 1);
    lemma_mirror_asks(world, done, m0, ask_kind, (steps - 1) as nat);
    let next = mirror_next(m0, host.answer(ask_kind));
    match host.kind(source) {
        None => {
            assert(next == mirror_abort(queue, Fatal::NoMetadata));
            lemma_mirror_aborts(world, done, queue, Fatal::NoMetadata, (steps - 1) as nat);
            (0, 1)
        },
        Some(kind) => match treated_as(kind, source) {
            NodeKind::Directory => {
                let c1 = at_place(queue, StageView::DirExists { job }, job);
                assert(next == c1);
                lemma_mirror_asks(world, done, c1.0, ask_place, 0);
                assert(steps >= 2);
                lemma_mirror_asks(world, done, c1.0, ask_place, (steps - 2) as nat);
                let next2 = mirror_next(c1.0, host.answer(ask_place));
                if !host.present.contains(place) {
                    let commands = directory_commands(job, false);
                    assert(next2 == mirror_finish(queue, commands));
                    lemma_mirror_finishes(world, done, queue, commands, (steps - 2) as nat);
                    (0, 2)
                } else {
                    let ask_dir = QueryView::IsDir(place);
                    let c2 = (
                        MirrorView { queue, stage: StageView::DirIsDir { job } },
                        ask(ask_dir),
                    );
                    assert(next2 == c2);
                    lemma_mirror_asks(world, done, c2.0, ask_dir, 0);
                    assert(steps >= 3);
                    lemma_mirror_asks(world, done, c2.0, ask_dir, (steps - 3) as nat);
                    let next3 = mirror_next(c2.0, host.answer(ask_dir));
                    if !host.dirs.contains(place) {
                        assert(next3 == mirror_finish(queue, Seq::empty()));
                        lemma_mirror_finishes(
                            world,
                            done,
                            queue,
                            Seq::empty(),
                            (steps - 3) as nat,
                        );
                        assert(done + Seq::<CommandView>::empty() =~= done);
                        (0, 3)
                    } else {
                        let ask_list = QueryView::List(source);
                        let c3 = (
                            MirrorView { queue, stage: StageView::Listing { job } },
                            ask(ask_list),
                        );
                        assert(next3 == c3);
                        lemma_mirror_asks(world, done, c3.0, ask_list, 0);
                        assert(steps >= 4);
                        lemma_mirror_asks(world, done, c3.0, ask_list, (steps - 4) as nat);
                        let next4 = mirror_next(c3.0, host.answer(ask_list));
                        match host.listing(source) {
                            None => {
                                assert(next4 == mirror_abort(queue, Fatal::ListFailed));
                                lemma_mirror_aborts(
                                    world,
                                    done,
                                    queue,
                                    Fatal::ListFailed,
                                    (steps - 4) as nat,
                                );
                                (0, 4)
                            },
                            Some(names) => {
                                let children = job.children(names);
                                assert(next4 == mirror_finish(children + queue, Seq::empty()));
                                lemma_mirror_finishes(
                                    world,
                                    done,
                                    children + queue,
                                    Seq::empty(),
                                    (steps - 4) as nat,
                                );
                                assert(done + Seq::<CommandView>::empty() =~= done);
                                let inner = lemma_list_ends(
                                    world,
                                    done,
                                    children,
                                    queue,
                                    (steps - 4) as nat,
                                );
                                (inner.0 + 1, inner.1 + 4)
                            },
                        }
                    }
                }
            },
            NodeKind::File => {
                let c1 = at_place(queue, StageView::FileExists { job }, job);
                assert(next == c1);
                lemma_mirror_asks(world, done, c1.0, ask_place, 0);
                assert(steps >= 2);
                lemma_mirror_asks(world, done, c1.0, ask_place, (steps - 2) as nat);
                let commands = file_commands(job, host.present.contains(place));
                assert(mirror_next(c1.0, host.answer(ask_place)) == mirror_finish(
                    queue,
                    commands,
                ));
                lemma_mirror_finishes(world, done, queue, commands, (steps - 2) as nat);
                (0, 2)
            },
            NodeKind::Symlink => {
                let c1 = at_place(queue, StageView::LinkExists { job }, job);
                assert(next == c1);
                lemma_mirror_asks(world, done, c1.0, ask_place, 0);
                assert(steps >= 2);
                lemma_mirror_asks(world, done, c1.0, ask_place, (steps - 2) as nat);
                let next2 = mirror_next(c1.0, host.answer(ask_place));
                if host.present.contains(place) {
                    assert(next2 == mirror_finish(queue, Seq::empty()));
                    lemma_mirror_finishes(world, done, queue, Seq::empty(), (steps - 2) as nat);
                    assert(done + Seq::<CommandView>::empty() =~= done);
                    (0, 2)
                } else {
                    let start = resolve_start(job.ctx.nixdir, source, true);
                    let question = QueryView::IsSymlink(source);
                    let c2 = (
                        MirrorView {
                            queue,
                            stage: StageView::LinkTarget { job, resolution: start.0 },
                        },
                        ask(question),
                    );
                    assert(next2 == c2);
                    let inner = lemma_targeting_ends(
                        world,
                        done,
                        queue,
                        job,
                        start.0,
                        question,
                        (steps - 2) as nat,
                    );
                    let depth = theorem_resolution_is_right(
                        host,
                        job.ctx.nixdir,
                        source,
                        true,
                        inner.0,
                    );
                    let left = (steps - 2 - inner.1) as nat;
                    match resolved(host, job.ctx.nixdir, source, true, depth).unwrap() {
                        Ok(target) => {
                            lemma_mirror_finishes(
                                world,
                                done,
                                queue,
                                symlink_commands(job, target),
                                left,
                            );
                        },
                        Err(_) => {
                            lemma_mirror_aborts(world, done, queue, Fatal::BrokenLink, left);
                        },
                    }
                    (depth, inner.1 + 2)
                }
            },
            NodeKind::Other => {
                assert(next == mirror_abort(queue, Fatal::UnknownKind));
                lemma_mirror_aborts(world, done, queue, Fatal::UnknownKind, (steps - 1) as nat);
                (0, 1)
            },
        },
    }
}

/// An engine that takes up the first of `all`, and ends, has on its way
/// mirrored it as the plain definition says, within the depth `out.0` and
/// with `out.1` answers.
pub proof fn lemma_one_ends(
    world: World,
    done: Seq<CommandView>,
    all: Seq<JobView>,
    steps: nat,
) -> (out: (nat, nat))
    requires
        all.len() > 0,
        mirror_run(world, done, mirror_begin(all), steps) is Some,
    ensures
        mirror_one(world, done, all[0], out.0) is Some,
        1 <= out.1 <= steps,
        mirror_run(world, done, mirror_begin(all), steps) == goes_on(
            world,
            mirror_one(world, done, all[0], out.0).unwrap(),
            all.skip(1),
            (steps - out.1) as nat,
        ),
    decreases steps, 1nat,
{
    let host = (world.after)(done);
    let job = all[0];
    let queue = all.skip(1);
    let source = job.entry.path();
    if nix_root().is_prefix_of(source) {
        let start = resolve_start(job.ctx.nixdir, source, true);
        let question = QueryView::IsSymlink(source);
        assert(mirror_begin(all) == (
            MirrorView { queue, stage: StageView::Resolving { job, resolution: start.0 } },
            ask(question),
        ));
        let first = lemma_locating_ends(world, done, queue, job, start.0, question, steps);
        let depth = theorem_resolution_is_right(host, job.ctx.nixdir, source, true, first.0);
        let left = (steps - first.1) as nat;
        match resolved(host, job.ctx.nixdir, source, true, depth).unwrap() {
            Ok(src) => {
                let moved = job.moved_to(src);
                let second = lemma_found_ends(world, done, queue, moved, left);
                let deeper = if depth <= second.0 {
                    second.0
                } else {
                    depth
                };
                lemma_resolved_lasts(host, job.ctx.nixdir, source, true, depth, deeper);
                lemma_found_lasts(world, done, moved, second.0, deeper);
                (deeper, first.1 + second.1)
            },
            Err(_) => {
                lemma_mirror_aborts(world, done, queue, Fatal::Unresolvable, left);
                (depth, first.1)
            },
        }
    } else {
        assert(mirror_begin(all) == at_kind(queue, job));
        lemma_found_ends(world, done, queue, job, steps)
    }
}

/// An engine that has `jobs` to do before `queue`, and ends, has on its
/// way mirrored them as the plain definition says, within the depth
/// `out.0` and with `out.1` answers.
pub proof fn lemma_list_ends(
    world: World,
    done: Seq<CommandView>,
    jobs: Seq<JobView>,
    queue: Seq<JobView>,
    steps: nat,
) -> (out: (nat, nat))
    requires
        mirror_run(world, done, mirror_begin(jobs + queue), steps) is Some,
    ensures
        mirror_list(world, done, jobs, out.0) is Some,
        out.1 <= steps,
        mirror_run(world, done, mirror_begin(jobs + queue), steps) == goes_on(
            world,
            mirror_list(world, done, jobs, out.0).unwrap(),
            queue,
            (steps - out.1) as nat,
        ),
    decreases steps, 2nat,
{
    if jobs.len() == 0 {
        assert(jobs + queue =~= queue);
        (0, 0)
    } else {
        let all = jobs + queue;
        assert(all[0] == jobs[0]);
        assert(all.skip(1) =~= jobs.skip(1) + queue);
        let first = lemma_one_ends(world, done, all, steps);
        match mirror_one(world, done, jobs[0], first.0).unwrap() {
            Outcome::Stopped(given, reason) => first,
            Outcome::Done(given) => {
                let rest = lemma_list_ends(
                    world,
                    given,
                    jobs.skip(1),
                    queue,
                    (steps - first.1) as nat,
                );
                let depth = if first.0 <= rest.0 {
                    rest.0
                } else {
                    first.0
                };
                lemma_one_lasts(world, done, jobs[0], first.0, depth);
                lemma_list_lasts(world, given, jobs.skip(1), rest.0, depth);
                (depth, first.1 + rest.1)
            },
        }
    }
}

/// Whatever the engine that is given the entries ends with, mirroring the
/// entries does by the plain definition.
pub proof fn theorem_mirror_is_right(
    world: World,
    done: Seq<CommandView>,
    jobs: Seq<JobView>,
    steps: nat,
) -> (depth: nat)
    requires
        mirror_run(world, done, mirror_begin(jobs), steps) is Some,
    ensures
        mirror_list(world, done, jobs, depth) == mirror_run(
            world,
            done,
            mirror_begin(jobs),
            steps,
        ),
{
    assert(jobs + Seq::<JobView>::empty() =~= jobs);
    let out = lemma_list_ends(world, done, jobs, Seq::empty(), steps);
    match mirror_list(world, done, jobs, out.0).unwrap() {
        Outcome::Done(given) => {
            lemma_mirror_idle(world, given, (steps - out.1) as nat);
        },
        Outcome::Stopped(given, reason) => {},
    }
    out.0
}

} // verus!
