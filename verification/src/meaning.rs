//! What resolving a path means on a host that does not change, and that a
//! resolution computes it.

use crate::host::{NodeKind, QueryView, ReplyView};
use crate::names::nix_root;
use crate::path::{joined, parent_of};
use crate::resolve::{
    fail, follow, peel, rebased, resolve_next, resolve_start, rewritten, settle, ResolutionView,
    ResolveError, ResolvedView, Waiting,
};
use vstd::prelude::*;

verus! {

/// What a host answers, as long as nothing on it changes.
pub struct Host {
    /// The symbolic links, each with its target; `None` where the target
    /// cannot be read.
    pub links: Map<Seq<Seq<u8>>, Option<Seq<Seq<u8>>>>,
    /// The paths that lead somewhere, symbolic links followed.
    pub present: Set<Seq<Seq<u8>>>,
    /// The paths that lead to a directory, symbolic links followed.
    pub dirs: Set<Seq<Seq<u8>>>,
    /// What is at a path, symbolic links not followed. A path without an
    /// entry cannot be looked at.
    pub kinds: Map<Seq<Seq<u8>>, NodeKind>,
    /// The names in a directory. A path without an entry cannot be listed.
    pub names: Map<Seq<Seq<u8>>, Seq<Seq<u8>>>,
    /// The names of the users.
    pub users: Map<u32, Seq<u8>>,
}

impl Host {
    /// What is at the path, symbolic links not followed, if the host says.
    pub open spec fn kind(self, p: Seq<Seq<u8>>) -> Option<NodeKind> {
        if self.kinds.dom().contains(p) {
            Some(self.kinds[p])
        } else {
            None
        }
    }

    /// The names in the directory at the path, if the host says.
    pub open spec fn listing(self, p: Seq<Seq<u8>>) -> Option<Seq<Seq<u8>>> {
        if self.names.dom().contains(p) {
            Some(self.names[p])
        } else {
            None
        }
    }

    /// The name of the user, if the user has one.
    pub open spec fn user(self, uid: u32) -> Option<Seq<u8>> {
        if self.users.dom().contains(uid) {
            Some(self.users[uid])
        } else {
            None
        }
    }

    /// The answer to `question`.
    pub open spec fn answer(self, question: QueryView) -> ReplyView {
        match question {
            QueryView::IsSymlink(p) => ReplyView::Flag(self.links.dom().contains(p)),
            QueryView::Exists(p) => ReplyView::Flag(self.present.contains(p)),
            QueryView::IsDir(p) => ReplyView::Flag(self.dirs.contains(p)),
            QueryView::ReadLink(p) => ReplyView::Link(
                if self.links.dom().contains(p) {
                    self.links[p]
                } else {
                    None
                },
            ),
            QueryView::Kind(p) => ReplyView::Kind(self.kind(p)),
            QueryView::List(p) => ReplyView::Names(self.listing(p)),
            QueryView::UserName(uid) => ReplyView::UserName(self.user(uid)),
        }
    }
}

/// How a resolution that has come to `at` ends on `host`, if it ends within
/// `steps` answers.
#[verifier::opaque]
pub open spec fn resolve_run(host: Host, at: (ResolutionView, ResolvedView), steps: nat) -> Option<
    Result<Seq<Seq<u8>>, ResolveError>,
>
    decreases steps,
{
    match at.1 {
        ResolvedView::Done(result) => Some(result),
        ResolvedView::Ask(question) => if steps == 0 {
            None
        } else {
            resolve_run(host, resolve_next(at.0, host.answer(question)), (steps - 1) as nat)
        },
    }
}

impl Host {
    /// Whether the path itself is a symbolic link.
    pub open spec fn is_link(self, p: Seq<Seq<u8>>) -> bool {
        self.links.dom().contains(p)
    }

    /// Where the symbolic link at the path points, where that can be read.
    pub open spec fn target(self, p: Seq<Seq<u8>>) -> Option<Seq<Seq<u8>>> {
        if self.is_link(p) {
            self.links[p]
        } else {
            None
        }
    }

    /// Whether the path is a symbolic link whose target, as it is written,
    /// lies under `/nix`.
    pub open spec fn leads_into_nix(self, p: Seq<Seq<u8>>) -> bool {
        match self.target(p) {
            Some(raw) => nix_root().is_prefix_of(raw),
            None => false,
        }
    }
}

/// The longest path that is shorter than `p`, begins it, and is a symbolic
/// link into `/nix`.
pub open spec fn link_above(host: Host, p: Seq<Seq<u8>>) -> Option<Seq<Seq<u8>>>
    decreases p.len(),
{
    match parent_of(p) {
        None => None,
        Some(shorter) => if host.leads_into_nix(shorter) {
            Some(shorter)
        } else {
            link_above(host, shorter)
        },
    }
}

/// What the path `p` resolves to on `host`, with `store` in the place of
/// `/nix`, if that can be told within `depth` nested resolutions:
///
/// - a symbolic link resolves to what its target resolves to, the target
///   taken from the directory of the link and, where it lies under `/nix`,
///   into the store; but with `stop` a target outside `/nix` is the result;
/// - any other path that exists resolves to itself;
/// - a path that does not exist, below a symbolic link into `/nix`, resolves
///   to what the rest of the path resolves to behind what that link
///   resolves to;
/// - any other path is not found.
pub open spec fn resolved(
    host: Host,
    store: Seq<Seq<u8>>,
    p: Seq<Seq<u8>>,
    stop: bool,
    depth: nat,
) -> Option<Result<Seq<Seq<u8>>, ResolveError>>
    decreases depth,
{
    if depth == 0 {
        None
    } else if host.is_link(p) {
        match host.target(p) {
            None => Some(Err(ResolveError::Unreadable)),
            Some(raw) => match rebased(p, raw) {
                None => Some(Err(ResolveError::Unexpected)),
                Some(target) => if nix_root().is_prefix_of(target) || !stop {
                    resolved(host, store, rewritten(store, target), stop, (depth - 1) as nat)
                } else {
                    Some(Ok(target))
                },
            },
        }
    } else if host.present.contains(p) {
        Some(Ok(p))
    } else {
        match link_above(host, p) {
            None => Some(Err(ResolveError::NotFound)),
            Some(above) => match resolved(host, store, above, stop, (depth - 1) as nat) {
                None => None,
                Some(Err(e)) => Some(Err(e)),
                Some(Ok(actual)) => resolved(
                    host,
                    store,
                    joined(actual, p.skip(above.len() as int)),
                    stop,
                    (depth - 1) as nat,
                ),
            },
        }
    }
}

/// Where a resolution stands when the path it was following has resolved
/// to `result`.
pub open spec fn comes_back(s: ResolutionView, result: Result<Seq<Seq<u8>>, ResolveError>) -> (
    ResolutionView,
    ResolvedView,
) {
    match result {
        Ok(p) => settle(s, p),
        Err(e) => fail(s, e),
    }
}

/// The state of a resolution that follows `p` and waits for `waiting`.
pub open spec fn waits(s: ResolutionView, p: Seq<Seq<u8>>, waiting: Waiting) -> ResolutionView {
    ResolutionView { at: p, tail: Seq::empty(), waiting, ..s }
}

/// Where a resolution that follows `p` stands after the two answers that
/// it asks for first: whether `p` is a symbolic link, and then where it
/// points, or else whether it exists.
pub open spec fn second(host: Host, s: ResolutionView, p: Seq<Seq<u8>>) -> (
    ResolutionView,
    ResolvedView,
) {
    if host.is_link(p) {
        match host.target(p) {
            None => fail(waits(s, p, Waiting::Target), ResolveError::Unreadable),
            Some(raw) => match rebased(p, raw) {
                None => fail(waits(s, p, Waiting::Target), ResolveError::Unexpected),
                Some(target) => if nix_root().is_prefix_of(target) || !s.stop {
                    follow(s, rewritten(s.store, target))
                } else {
                    settle(waits(s, p, Waiting::Target), target)
                },
            },
        }
    } else if host.present.contains(p) {
        settle(waits(s, p, Waiting::Exists), p)
    } else {
        peel(waits(s, p, Waiting::Exists))
    }
}

/// A resolution that has ended has its result, however many answers are
/// allowed.
pub proof fn lemma_run_done(
    host: Host,
    at: (ResolutionView, ResolvedView),
    result: Result<Seq<Seq<u8>>, ResolveError>,
    steps: nat,
)
    requires
        at.1 == ResolvedView::Done(result),
    ensures
        resolve_run(host, at, steps) == Some(result),
{
    reveal(resolve_run);
}

/// A resolution that asks goes on with the answer of the host, which uses
/// up one answer.
pub proof fn lemma_run_step(
    host: Host,
    at: (ResolutionView, ResolvedView),
    question: QueryView,
    steps: nat,
)
    requires
        at.1 == ResolvedView::Ask(question),
    ensures
        resolve_run(host, at, 0) is None,
        resolve_run(host, at, steps + 1) == resolve_run(
            host,
            resolve_next(at.0, host.answer(question)),
            steps,
        ),
{
    reveal(resolve_run);
}

/// A resolution that follows `p` needs two answers to come to where
/// `second` says.
pub proof fn lemma_second(host: Host, s: ResolutionView, p: Seq<Seq<u8>>, steps: nat)
    ensures
        resolve_run(host, follow(s, p), 0) is None,
        resolve_run(host, follow(s, p), 1) is None,
        resolve_run(host, follow(s, p), steps + 2) == resolve_run(host, second(host, s, p), steps),
{
    let c0 = follow(s, p);
    let q0 = QueryView::IsSymlink(p);
    lemma_run_step(host, c0, q0, 0);
    lemma_run_step(host, c0, q0, steps + 1);
    let c1 = resolve_next(c0.0, host.answer(q0));
    if host.is_link(p) {
        let q1 = QueryView::ReadLink(p);
        assert(c1 == (waits(s, p, Waiting::Target), ResolvedView::Ask(q1)));
        lemma_run_step(host, c1, q1, steps);
        assert(resolve_next(c1.0, host.answer(q1)) == second(host, s, p));
    } else {
        let q1 = QueryView::Exists(p);
        assert(c1 == (waits(s, p, Waiting::Exists), ResolvedView::Ask(q1)));
        lemma_run_step(host, c1, q1, steps);
        assert(resolve_next(c1.0, host.answer(q1)) == second(host, s, p));
    }
}

/// The link above a path begins the path and is shorter.
pub proof fn lemma_link_above_begins(host: Host, p: Seq<Seq<u8>>)
    ensures
        link_above(host, p) matches Some(above) ==> above.len() < p.len() && above == p.take(
            above.len() as int,
        ),
    decreases p.len(),
{
    match parent_of(p) {
        None => {},
        Some(shorter) => {
            if host.leads_into_nix(shorter) {
                assert(shorter =~= p.take(shorter.len() as int));
            } else {
                lemma_link_above_begins(host, shorter);
                match link_above(host, shorter) {
                    Some(above) => {
                        assert(above =~= p.take(above.len() as int));
                    },
                    None => {},
                }
            }
        },
    }
}

/// How a resolution goes on from a result depends on the store, on whether
/// it stops, and on the ends that are pending, and on nothing else.
pub proof fn lemma_back_alike(
    host: Host,
    s1: ResolutionView,
    s2: ResolutionView,
    result: Result<Seq<Seq<u8>>, ResolveError>,
    more: nat,
)
    requires
        s1.store == s2.store,
        s1.stop == s2.stop,
        s1.pending == s2.pending,
    ensures
        resolve_run(host, comes_back(s1, result), more) == resolve_run(
            host,
            comes_back(s2, result),
            more,
        ),
{
    match result {
        Err(e) => {
            lemma_run_done(host, comes_back(s1, result), result, more);
            lemma_run_done(host, comes_back(s2, result), result, more);
        },
        Ok(p) => {
            if s1.pending.len() == 0 {
                lemma_run_done(host, comes_back(s1, result), result, more);
                lemma_run_done(host, comes_back(s2, result), result, more);
            } else {
                assert(comes_back(s1, result) == comes_back(s2, result));
            }
        },
    }
}

/// The number of answers that it takes to look, above the missing path
/// `at`, for a symbolic link into `/nix`.
pub open spec fn peel_steps(host: Host, at: Seq<Seq<u8>>) -> nat
    decreases at.len(),
{
    match parent_of(at) {
        None => 0,
        Some(shorter) => if !host.is_link(shorter) {
            1 + peel_steps(host, shorter)
        } else if host.leads_into_nix(shorter) {
            2
        } else {
            2 + peel_steps(host, shorter)
        },
    }
}

/// Where a resolution goes when it has found the link `above` over the
/// missing path: it follows the link, and what it took off the path is
/// pending.
pub open spec fn found_above(t: ResolutionView, above: Seq<Seq<u8>>) -> (
    ResolutionView,
    ResolvedView,
) {
    follow(
        ResolutionView { pending: t.pending.push(t.at.skip(above.len() as int) + t.tail), ..t },
        above,
    )
}

/// A resolution that finds the path under examination missing takes
/// components off its end until it meets a symbolic link into `/nix`. It
/// then goes on with that link, and keeps what it took off for later. If
/// it meets none, the path is not found.
pub proof fn lemma_peel(host: Host, t: ResolutionView, more: nat)
    ensures
        match link_above(host, t.at) {
            None => resolve_run(host, peel(t), peel_steps(host, t.at) + more) == Some(
                Err::<Seq<Seq<u8>>, ResolveError>(ResolveError::NotFound),
            ),
            Some(above) => resolve_run(host, peel(t), peel_steps(host, t.at) + more)
                == resolve_run(host, found_above(t, above), more),
        },
    decreases t.at.len(),
{
    match parent_of(t.at) {
        None => {
            lemma_run_done(host, peel(t), Err(ResolveError::NotFound), more);
        },
        Some(shorter) => {
            lemma_link_above_begins(host, t.at);
            let t1 = ResolutionView {
                at: shorter,
                tail: seq![t.at.last()] + t.tail,
                waiting: Waiting::PeelIsLink,
                ..t
            };
            let q1 = QueryView::IsSymlink(shorter);
            assert(peel(t) == (t1, ResolvedView::Ask(q1)));
            let c2 = resolve_next(t1, host.answer(q1));
            if host.is_link(shorter) {
                let t2 = ResolutionView { waiting: Waiting::PeelTarget, ..t1 };
                let q2 = QueryView::ReadLink(shorter);
                assert(c2 == (t2, ResolvedView::Ask(q2)));
                let c3 = resolve_next(t2, host.answer(q2));
                if host.leads_into_nix(shorter) {
                    assert(t.at.skip(shorter.len() as int) + t.tail =~= t1.tail);
                    assert(c3 == found_above(t, shorter));
                    lemma_run_step(host, peel(t), q1, 1 + more);
                    lemma_run_step(host, c2, q2, more);
                } else {
                    assert(c3 == peel(t2));
                    lemma_peel(host, t2, more);
                    let inner = peel_steps(host, shorter);
                    lemma_run_step(host, peel(t), q1, 1 + inner + more);
                    lemma_run_step(host, c2, q2, inner + more);
                    match link_above(host, shorter) {
                        Some(above) => {
                            lemma_link_above_begins(host, shorter);
                            assert(shorter.skip(above.len() as int) + t2.tail =~= t.at.skip(
                                above.len() as int,
                            ) + t.tail);
                            assert(found_above(t2, above) == found_above(t, above));
                        },
                        None => {},
                    }
                }
            } else {
                assert(c2 == peel(t1));
                lemma_peel(host, t1, more);
                let inner = peel_steps(host, shorter);
                lemma_run_step(host, peel(t), q1, inner + more);
                match link_above(host, shorter) {
                    Some(above) => {
                        lemma_link_above_begins(host, shorter);
                        assert(shorter.skip(above.len() as int) + t1.tail =~= t.at.skip(
                            above.len() as int,
                        ) + t.tail);
                        assert(found_above(t1, above) == found_above(t, above));
                    },
                    None => {},
                }
            }
        },
    }
}

/// Where the resolution of a missing path goes once the link above it has
/// resolved to `actual`: it follows `actual` with the rest of the path
/// behind it.
pub proof fn lemma_back_from_above(
    s: ResolutionView,
    p: Seq<Seq<u8>>,
    above: Seq<Seq<u8>>,
    actual: Seq<Seq<u8>>,
)
    ensures
        comes_back(found_above(waits(s, p, Waiting::Exists), above).0, Ok(actual)) == follow(
            s,
            joined(actual, p.skip(above.len() as int)),
        ),
        found_above(waits(s, p, Waiting::Exists), above) == follow(
            found_above(waits(s, p, Waiting::Exists), above).0,
            above,
        ),
        found_above(waits(s, p, Waiting::Exists), above).0.store == s.store,
        found_above(waits(s, p, Waiting::Exists), above).0.stop == s.stop,
{
    let t = waits(s, p, Waiting::Exists);
    let end = p.skip(above.len() as int);
    assert(t.at.skip(above.len() as int) + t.tail =~= end);
    let s2 = found_above(t, above).0;
    assert(s2.pending.drop_last() =~= s.pending);
    assert(s2.pending.last() == end);
}

/// A resolution that follows `p` comes, after some answers, to where it
/// stands when `p` has resolved to what `p` resolves to.
pub proof fn lemma_follow(
    host: Host,
    s: ResolutionView,
    p: Seq<Seq<u8>>,
    depth: nat,
    more: nat,
) -> (steps: nat)
    requires
        resolved(host, s.store, p, s.stop, depth) is Some,
    ensures
        resolve_run(host, follow(s, p), steps + more) == resolve_run(
            host,
            comes_back(s, resolved(host, s.store, p, s.stop, depth).unwrap()),
            more,
        ),
    decreases depth,
{
    let c2 = second(host, s, p);
    if host.is_link(p) {
        match host.target(p) {
            None => {
                lemma_second(host, s, p, more);
                lemma_back_alike(
                    host,
                    waits(s, p, Waiting::Target),
                    s,
                    Err(ResolveError::Unreadable),
                    more,
                );
                2
            },
            Some(raw) => match rebased(p, raw) {
                None => {
                    lemma_second(host, s, p, more);
                    lemma_back_alike(
                        host,
                        waits(s, p, Waiting::Target),
                        s,
                        Err(ResolveError::Unexpected),
                        more,
                    );
                    2
                },
                Some(target) => {
                    if nix_root().is_prefix_of(target) || !s.stop {
                        let next = rewritten(s.store, target);
                        let inner = lemma_follow(host, s, next, (depth - 1) as nat, more);
                        lemma_second(host, s, p, inner + more);
                        2 + inner
                    } else {
                        lemma_second(host, s, p, more);
                        lemma_back_alike(host, waits(s, p, Waiting::Target), s, Ok(target), more);
                        2
                    }
                },
            },
        }
    } else if host.present.contains(p) {
        lemma_second(host, s, p, more);
        lemma_back_alike(host, waits(s, p, Waiting::Exists), s, Ok(p), more);
        2
    } else {
        let t = waits(s, p, Waiting::Exists);
        let peeling = peel_steps(host, p);
        match link_above(host, p) {
            None => {
                lemma_peel(host, t, more);
                lemma_second(host, s, p, peeling + more);
                lemma_run_done(
                    host,
                    comes_back(s, Err(ResolveError::NotFound)),
                    Err(ResolveError::NotFound),
                    more,
                );
                2 + peeling
            },
            Some(above) => {
                let s2 = found_above(t, above).0;
                let first = resolved(host, s.store, above, s.stop, (depth - 1) as nat).unwrap();
                match first {
                    Err(e) => {
                        lemma_back_from_above(s, p, above, above);
                        let inner = lemma_follow(host, s2, above, (depth - 1) as nat, more);
                        lemma_peel(host, t, inner + more);
                        lemma_second(host, s, p, peeling + inner + more);
                        lemma_run_done(host, comes_back(s2, first), first, more);
                        lemma_run_done(host, comes_back(s, first), first, more);
                        2 + peeling + inner
                    },
                    Ok(actual) => {
                        lemma_back_from_above(s, p, above, actual);
                        let longer = joined(actual, p.skip(above.len() as int));
                        let last = lemma_follow(host, s, longer, (depth - 1) as nat, more);
                        let inner = lemma_follow(
                            host,
                            s2,
                            above,
                            (depth - 1) as nat,
                            last + more,
                        );
                        lemma_peel(host, t, inner + last + more);
                        lemma_second(host, s, p, peeling + inner + last + more);
                        2 + peeling + inner + last
                    },
                }
            },
        }
    }
}

/// Whatever the path resolves to, the resolution of the path ends with,
/// after some number of answers of the host.
pub proof fn theorem_resolution_computes(
    host: Host,
    store: Seq<Seq<u8>>,
    p: Seq<Seq<u8>>,
    stop: bool,
    depth: nat,
) -> (steps: nat)
    requires
        resolved(host, store, p, stop, depth) is Some,
    ensures
        resolve_run(host, resolve_start(store, p, stop), steps) == resolved(
            host,
            store,
            p,
            stop,
            depth,
        ),
{
    let s = resolve_start(store, p, stop).0;
    assert(follow(s, p) == resolve_start(store, p, stop));
    let steps = lemma_follow(host, s, p, depth, 0);
    let result = resolved(host, store, p, stop, depth).unwrap();
    lemma_run_done(host, comes_back(s, result), result, 0);
    steps
}

/// A resolution that has ended stays ended: more answers change nothing.
pub proof fn lemma_run_lasts(
    host: Host,
    at: (ResolutionView, ResolvedView),
    steps: nat,
    longer: nat,
)
    requires
        steps <= longer,
        resolve_run(host, at, steps) is Some,
    ensures
        resolve_run(host, at, longer) == resolve_run(host, at, steps),
    decreases steps,
{
    match at.1 {
        ResolvedView::Done(result) => {
            lemma_run_done(host, at, result, steps);
            lemma_run_done(host, at, result, longer);
        },
        ResolvedView::Ask(question) => {
            lemma_run_step(host, at, question, (steps - 1) as nat);
            lemma_run_step(host, at, question, (longer - 1) as nat);
            lemma_run_lasts(
                host,
                resolve_next(at.0, host.answer(question)),
                (steps - 1) as nat,
                (longer - 1) as nat,
            );
        },
    }
}

/// What a path resolves to within some depth, it resolves to within any
/// greater depth.
pub proof fn lemma_resolved_lasts(
    host: Host,
    store: Seq<Seq<u8>>,
    p: Seq<Seq<u8>>,
    stop: bool,
    depth: nat,
    deeper: nat,
)
    requires
        depth <= deeper,
        resolved(host, store, p, stop, depth) is Some,
    ensures
        resolved(host, store, p, stop, deeper) == resolved(host, store, p, stop, depth),
    decreases depth,
{
    if host.is_link(p) {
        match host.target(p) {
            None => {},
            Some(raw) => match rebased(p, raw) {
                None => {},
                Some(target) => {
                    if nix_root().is_prefix_of(target) || !stop {
                        lemma_resolved_lasts(
                            host,
                            store,
                            rewritten(store, target),
                            stop,
                            (depth - 1) as nat,
                            (deeper - 1) as nat,
                        );
                    }
                },
            },
        }
    } else if !host.present.contains(p) {
        match link_above(host, p) {
            None => {},
            Some(above) => {
                lemma_resolved_lasts(
                    host,
                    store,
                    above,
                    stop,
                    (depth - 1) as nat,
                    (deeper - 1) as nat,
                );
                match resolved(host, store, above, stop, (depth - 1) as nat) {
                    Some(Ok(actual)) => {
                        lemma_resolved_lasts(
                            host,
                            store,
                            joined(actual, p.skip(above.len() as int)),
                            stop,
                            (depth - 1) as nat,
                            (deeper - 1) as nat,
                        );
                    },
                    _ => {},
                }
            },
        }
    }
}

/// A resolution that follows `p` and ends within `steps` answers has, on
/// its way, come to where it stands when `p` has resolved: `p` resolves to
/// something, within the depth `out.0`, and `out.1` answers were used up
/// to there.
pub proof fn lemma_ends(host: Host, s: ResolutionView, p: Seq<Seq<u8>>, steps: nat) -> (out: (
    nat,
    nat,
))
    requires
        resolve_run(host, follow(s, p), steps) is Some,
    ensures
        resolved(host, s.store, p, s.stop, out.0) is Some,
        out.1 <= steps,
        resolve_run(host, follow(s, p), steps) == resolve_run(
            host,
            comes_back(s, resolved(host, s.store, p, s.stop, out.0).unwrap()),
            (steps - out.1) as nat,
        ),
    decreases steps,
{
    lemma_second(host, s, p, 0);
    assert(steps >= 2) by {
        if steps == 0 {
        } else if steps == 1 {
        }
    }
    let left = (steps - 2) as nat;
    lemma_second(host, s, p, left);
    if host.is_link(p) {
        match host.target(p) {
            None => {
                lemma_back_alike(
                    host,
                    waits(s, p, Waiting::Target),
                    s,
                    Err(ResolveError::Unreadable),
                    left,
                );
                (1, 2)
            },
            Some(raw) => match rebased(p, raw) {
                None => {
                    lemma_back_alike(
                        host,
                        waits(s, p, Waiting::Target),
                        s,
                        Err(ResolveError::Unexpected),
                        left,
                    );
                    (1, 2)
                },
                Some(target) => {
                    if nix_root().is_prefix_of(target) || !s.stop {
                        let next = rewritten(s.store, target);
                        let inner = lemma_ends(host, s, next, left);
                        (inner.0 + 1, inner.1 + 2)
                    } else {
                        lemma_back_alike(host, waits(s, p, Waiting::Target), s, Ok(target), left);
                        (1, 2)
                    }
                },
            },
        }
    } else if host.present.contains(p) {
        lemma_back_alike(host, waits(s, p, Waiting::Exists), s, Ok(p), left);
        (1, 2)
    } else {
        let t = waits(s, p, Waiting::Exists);
        let c2 = peel(t);
        let peeling = peel_steps(host, p);
        lemma_peel(host, t, 0);
        match link_above(host, p) {
            None => {
                if peeling <= left {
                    lemma_run_lasts(host, c2, peeling, left);
                } else {
                    lemma_run_lasts(host, c2, left, peeling);
                }
                lemma_run_done(
                    host,
                    comes_back(s, Err(ResolveError::NotFound)),
                    Err(ResolveError::NotFound),
                    left,
                );
                (1, 2)
            },
            Some(above) => {
                let s2 = found_above(t, above).0;
                lemma_back_from_above(s, p, above, above);
                // The search has not ended the resolution, so it took fewer
                // answers than the whole.
                lemma_run_step(host, found_above(t, above), QueryView::IsSymlink(above), 0);
                if left <= peeling {
                    lemma_run_lasts(host, c2, left, peeling);
                }
                let after = (left - peeling) as nat;
                lemma_peel(host, t, after);
                let first = lemma_ends(host, s2, above, after);
                let result = resolved(host, s.store, above, s.stop, first.0).unwrap();
                match result {
                    Err(e) => {
                        lemma_run_done(
                            host,
                            comes_back(s2, result),
                            result,
                            (after - first.1) as nat,
                        );
                        lemma_run_done(host, comes_back(s, result), result, left);
                        (first.0 + 1, 2)
                    },
                    Ok(actual) => {
                        lemma_back_from_above(s, p, above, actual);
                        let longer = joined(actual, p.skip(above.len() as int));
                        let second = lemma_ends(host, s, longer, (after - first.1) as nat);
                        let depth = if first.0 <= second.0 {
                            second.0
                        } else {
                            first.0
                        };
                        lemma_resolved_lasts(host, s.store, above, s.stop, first.0, depth);
                        lemma_resolved_lasts(host, s.store, longer, s.stop, second.0, depth);
                        (depth + 1, 2 + peeling + first.1 + second.1)
                    },
                }
            },
        }
    }
}

/// Whatever the resolution of a path ends with, the path resolves to.
pub proof fn theorem_resolution_is_right(
    host: Host,
    store: Seq<Seq<u8>>,
    p: Seq<Seq<u8>>,
    stop: bool,
    steps: nat,
) -> (depth: nat)
    requires
        resolve_run(host, resolve_start(store, p, stop), steps) is Some,
    ensures
        resolved(host, store, p, stop, depth) == resolve_run(
            host,
            resolve_start(store, p, stop),
            steps,
        ),
{
    let s = resolve_start(store, p, stop).0;
    assert(follow(s, p) == resolve_start(store, p, stop));
    let out = lemma_ends(host, s, p, steps);
    let result = resolved(host, store, p, stop, out.0).unwrap();
    lemma_run_done(host, comes_back(s, result), result, (steps - out.1) as nat);
    out.0
}

} // verus!
