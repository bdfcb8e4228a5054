//! Resolving a path whose symbolic links point below `/nix`, where the store
//! is not yet to be found: each such link is followed into the store
//! directory instead.
//!
//! A resolution asks the driver one question at a time and ends with the
//! resolved path or an error.

use crate::chroot::RunChroot;
use crate::host::{Query, QueryView, Reply, ReplyView};
use crate::names::{nix_root, nix_root_path};
use crate::path::{
    is_absolute, joined, lemma_views_push, parent_of, stripped, views, HostPath,
};
use vstd::prelude::*;

verus! {

/// Why a path could not be resolved.
#[derive(Clone, Copy, Debug, PartialEq, Eq, Structural)]
pub enum ResolveError {
    /// Neither the path nor a link into `/nix` above it leads anywhere.
    NotFound,
    /// The host would not say where a symbolic link points.
    Unreadable,
    /// The answer does not fit the question that was asked, or reports a
    /// symbolic link where none can be.
    Unexpected,
}

/// The question that a resolution is waiting to have answered.
#[derive(Clone, Copy, Debug, PartialEq, Eq, Structural)]
pub enum Waiting {
    /// Is the path a symbolic link?
    IsLink,
    /// Where does the link at the path point?
    Target,
    /// Does the path exist?
    Exists,
    /// Is the shortened path a symbolic link?
    PeelIsLink,
    /// Where does the link at the shortened path point?
    PeelTarget,
    /// Nothing: the resolution has ended.
    Finished,
}

/// A resolution under way.
#[derive(Debug, PartialEq, Eq)]
pub struct Resolution {
    store: HostPath,
    stop: bool,
    at: HostPath,
    tail: HostPath,
    waiting: Waiting,
    pending: Vec<HostPath>,
}

/// What a [`Resolution`] holds, as the values that contracts speak of.
pub struct ResolutionView {
    /// The store directory, which stands in for `/nix`.
    pub store: Seq<Seq<u8>>,
    /// Whether the first link target outside `/nix` ends the resolution.
    pub stop: bool,
    /// The path that the last question was about.
    pub at: Seq<Seq<u8>>,
    /// The components taken off the end of a missing path to reach `at`.
    pub tail: Seq<Seq<u8>>,
    pub waiting: Waiting,
    /// The ends of paths whose beginning is being resolved, the innermost
    /// last. Each is put back behind what its beginning resolves to.
    pub pending: Seq<Seq<Seq<u8>>>,
}

impl View for Resolution {
    type V = ResolutionView;

    closed spec fn view(&self) -> ResolutionView {
        ResolutionView {
            store: self.store@,
            stop: self.stop,
            at: self.at@,
            tail: self.tail@,
            waiting: self.waiting,
            pending: views(self.pending@),
        }
    }
}

/// What a resolution says after a step.
#[derive(Debug, PartialEq, Eq)]
pub enum Resolved {
    /// Answer this and hand the answer to the next step.
    Ask(Query),
    /// The resolution has ended.
    Done(Result<HostPath, ResolveError>),
}

/// What a [`Resolved`] holds, as the values that contracts speak of.
pub enum ResolvedView {
    Ask(QueryView),
    Done(Result<Seq<Seq<u8>>, ResolveError>),
}

impl View for Resolved {
    type V = ResolvedView;

    open spec fn view(&self) -> ResolvedView {
        match self {
            Resolved::Ask(q) => ResolvedView::Ask(q@),
            Resolved::Done(Ok(p)) => ResolvedView::Done(Ok(p@)),
            Resolved::Done(Err(e)) => ResolvedView::Done(Err(*e)),
        }
    }
}

/// The target of the link at `link`, taken relative to the directory that
/// holds the link. A link without such a directory has no target.
pub open spec fn rebased(link: Seq<Seq<u8>>, target: Seq<Seq<u8>>) -> Option<Seq<Seq<u8>>> {
    if is_absolute(target) {
        Some(target)
    } else {
        match parent_of(link) {
            Some(dir) => Some(joined(dir, target)),
            None => None,
        }
    }
}

/// Where a link target leads: into the store where it lies under `/nix`,
/// else where it says.
pub open spec fn rewritten(store: Seq<Seq<u8>>, target: Seq<Seq<u8>>) -> Seq<Seq<u8>> {
    match stripped(target, nix_root()) {
        Some(rest) => joined(store, rest),
        None => target,
    }
}

/// Go on with the path `p`: ask whether it is a symbolic link.
pub open spec fn follow(s: ResolutionView, p: Seq<Seq<u8>>) -> (ResolutionView, ResolvedView) {
    (
        ResolutionView { at: p, tail: Seq::empty(), waiting: Waiting::IsLink, ..s },
        ResolvedView::Ask(QueryView::IsSymlink(p)),
    )
}

/// End with the error `e`.
pub open spec fn fail(s: ResolutionView, e: ResolveError) -> (ResolutionView, ResolvedView) {
    (ResolutionView { waiting: Waiting::Finished, ..s }, ResolvedView::Done(Err(e)))
}

/// The path under examination resolves to `p`. Where that path was the
/// beginning of a longer one, go on with `p` and the longer one's end;
/// else `p` is the result.
pub open spec fn settle(s: ResolutionView, p: Seq<Seq<u8>>) -> (ResolutionView, ResolvedView) {
    if s.pending.len() == 0 {
        (ResolutionView { waiting: Waiting::Finished, ..s }, ResolvedView::Done(Ok(p)))
    } else {
        follow(ResolutionView { pending: s.pending.drop_last(), ..s }, joined(p, s.pending.last()))
    }
}

/// The path under examination leads nowhere: take its last component off
/// and ask whether what is left is a symbolic link. With nothing to take
/// off, the path is not found.
pub open spec fn peel(s: ResolutionView) -> (ResolutionView, ResolvedView) {
    match parent_of(s.at) {
        Some(shorter) => (
            ResolutionView {
                at: shorter,
                tail: seq![s.at.last()] + s.tail,
                waiting: Waiting::PeelIsLink,
                ..s
            },
            ResolvedView::Ask(QueryView::IsSymlink(shorter)),
        ),
        None => fail(s, ResolveError::NotFound),
    }
}

/// The first state of the resolution of `p`, and its first question.
pub open spec fn resolve_start(store: Seq<Seq<u8>>, p: Seq<Seq<u8>>, stop: bool) -> (
    ResolutionView,
    ResolvedView,
) {
    (
        ResolutionView {
            store,
            stop,
            at: p,
            tail: Seq::empty(),
            waiting: Waiting::IsLink,
            pending: Seq::empty(),
        },
        ResolvedView::Ask(QueryView::IsSymlink(p)),
    )
}

/// The state and the answer of a resolution that is told `reply`.
pub open spec fn resolve_next(s: ResolutionView, reply: ReplyView) -> (
    ResolutionView,
    ResolvedView,
) {
    match (s.waiting, reply) {
        (Waiting::IsLink, ReplyView::Flag(true)) => (
            ResolutionView { waiting: Waiting::Target, ..s },
            ResolvedView::Ask(QueryView::ReadLink(s.at)),
        ),
        (Waiting::IsLink, ReplyView::Flag(false)) => (
            ResolutionView { waiting: Waiting::Exists, ..s },
            ResolvedView::Ask(QueryView::Exists(s.at)),
        ),
        (Waiting::Target, ReplyView::Link(Some(raw))) => match rebased(s.at, raw) {
            Some(target) => if nix_root().is_prefix_of(target) || !s.stop {
                follow(s, rewritten(s.store, target))
            } else {
                settle(s, target)
            },
            None => fail(s, ResolveError::Unexpected),
        },
        (Waiting::Target, ReplyView::Link(None)) => fail(s, ResolveError::Unreadable),
        (Waiting::Exists, ReplyView::Flag(true)) => settle(s, s.at),
        (Waiting::Exists, ReplyView::Flag(false)) => peel(s),
        (Waiting::PeelIsLink, ReplyView::Flag(true)) => (
            ResolutionView { waiting: Waiting::PeelTarget, ..s },
            ResolvedView::Ask(QueryView::ReadLink(s.at)),
        ),
        (Waiting::PeelIsLink, ReplyView::Flag(false)) => peel(s),
        (Waiting::PeelTarget, ReplyView::Link(Some(raw))) => if nix_root().is_prefix_of(raw) {
            follow(ResolutionView { pending: s.pending.push(s.tail), ..s }, s.at)
        } else {
            peel(s)
        },
        (Waiting::PeelTarget, ReplyView::Link(None)) => peel(s),
        _ => fail(s, ResolveError::Unexpected),
    }
}

impl RunChroot {
    /// Begins to resolve `p`, following every symbolic link and taking each
    /// target under `/nix` into the store directory. With
    /// `stop_at_first_non_nix_path`, the first link target outside `/nix` is
    /// the result.
    pub fn resolve_nix_path(&self, p: HostPath, stop_at_first_non_nix_path: bool) -> (start: (
        Resolution,
        Resolved,
    ))
        ensures
            (start.0@, start.1@) == resolve_start(self@.nixdir, p@, stop_at_first_non_nix_path),
    {
        let question = Query::IsSymlink(p.clone());
        let state = Resolution {
            store: self.nixdir().clone(),
            stop: stop_at_first_non_nix_path,
            at: p,
            tail: HostPath::empty(),
            waiting: Waiting::IsLink,
            pending: Vec::new(),
        };
        assert(state@.pending =~= Seq::<Seq<Seq<u8>>>::empty());
        (state, Resolved::Ask(question))
    }
}

impl Resolution {
    /// Whether the resolution has ended.
    pub fn is_finished(&self) -> (yes: bool)
        ensures
            yes == (self@.waiting == Waiting::Finished),
    {
        match self.waiting {
            Waiting::Finished => true,
            _ => false,
        }
    }

    /// Goes on with the path `p`.
    fn follow(self, p: HostPath) -> (out: (Resolution, Resolved))
        ensures
            (out.0@, out.1@) == follow(self@, p@),
    {
        let question = Query::IsSymlink(p.clone());
        let state = Resolution {
            store: self.store,
            stop: self.stop,
            at: p,
            tail: HostPath::empty(),
            waiting: Waiting::IsLink,
            pending: self.pending,
        };
        (state, Resolved::Ask(question))
    }

    /// Ends with the error `e`.
    fn fail(self, e: ResolveError) -> (out: (Resolution, Resolved))
        ensures
            (out.0@, out.1@) == fail(self@, e),
    {
        let state = Resolution {
            store: self.store,
            stop: self.stop,
            at: self.at,
            tail: self.tail,
            waiting: Waiting::Finished,
            pending: self.pending,
        };
        (state, Resolved::Done(Err(e)))
    }

    /// Takes `p` for what the path under examination resolves to.
    fn settle(self, p: HostPath) -> (out: (Resolution, Resolved))
        ensures
            (out.0@, out.1@) == settle(self@, p@),
    {
        let mut pending = self.pending;
        let ghost before = pending@;
        match pending.pop() {
            None => {
                let state = Resolution {
                    store: self.store,
                    stop: self.stop,
                    at: self.at,
                    tail: self.tail,
                    waiting: Waiting::Finished,
                    pending,
                };
                assert(state@.pending =~= views(before));
                (state, Resolved::Done(Ok(p)))
            },
            Some(end) => {
                assert(views(pending@) =~= views(before).drop_last());
                let longer = p.join(&end);
                let state = Resolution {
                    store: self.store,
                    stop: self.stop,
                    at: self.at,
                    tail: self.tail,
                    waiting: self.waiting,
                    pending,
                };
                state.follow(longer)
            },
        }
    }

    /// Looks above the missing path for a symbolic link into `/nix`.
    fn peel(self) -> (out: (Resolution, Resolved))
        ensures
            (out.0@, out.1@) == peel(self@),
    {
        match self.at.parent() {
            Some(shorter) => {
                let last = HostPath::from_name(Some(self.at.part(self.at.len() - 1)));
                let tail = last.concat(&self.tail);
                let question = Query::IsSymlink(shorter.clone());
                let state = Resolution {
                    store: self.store,
                    stop: self.stop,
                    at: shorter,
                    tail,
                    waiting: Waiting::PeelIsLink,
                    pending: self.pending,
                };
                (state, Resolved::Ask(question))
            },
            None => self.fail(ResolveError::NotFound),
        }
    }

    /// Asks `question` about the path under examination.
    fn expect(self, waiting: Waiting, question: Query) -> (out: (Resolution, Resolved))
        ensures
            out.0@ == (ResolutionView { waiting, ..self@ }),
            out.1@ == ResolvedView::Ask(question@),
    {
        let state = Resolution {
            store: self.store,
            stop: self.stop,
            at: self.at,
            tail: self.tail,
            waiting,
            pending: self.pending,
        };
        (state, Resolved::Ask(question))
    }

    /// Takes `raw` for the target of the link under examination.
    fn link_target(self, raw: HostPath) -> (out: (Resolution, Resolved))
        requires
            self@.waiting == Waiting::Target,
        ensures
            (out.0@, out.1@) == resolve_next(self@, ReplyView::Link(Some(raw@))),
    {
        let target = if raw.is_absolute() {
            raw
        } else {
            match self.at.parent() {
                Some(dir) => dir.join(&raw),
                None => {
                    return self.fail(ResolveError::Unexpected);
                },
            }
        };
        let nix = nix_root_path();
        match target.strip_prefix(&nix) {
            Some(rest) => {
                let inside = self.store.join(&rest);
                self.follow(inside)
            },
            None => {
                if self.stop {
                    self.settle(target)
                } else {
                    self.follow(target)
                }
            },
        }
    }

    /// Takes the answer to the question last asked and says how the
    /// resolution goes on.
    pub fn step(self, reply: Reply) -> (out: (Resolution, Resolved))
        ensures
            (out.0@, out.1@) == resolve_next(self@, reply@),
    {
        match (self.waiting, reply) {
            (Waiting::IsLink, Reply::Flag(true)) => {
                let question = Query::ReadLink(self.at.clone());
                self.expect(Waiting::Target, question)
            },
            (Waiting::IsLink, Reply::Flag(false)) => {
                let question = Query::Exists(self.at.clone());
                self.expect(Waiting::Exists, question)
            },
            (Waiting::Target, Reply::Link(Some(raw))) => self.link_target(raw),
            (Waiting::Target, Reply::Link(None)) => self.fail(ResolveError::Unreadable),
            (Waiting::Exists, Reply::Flag(true)) => {
                let found = self.at.clone();
                self.settle(found)
            },
            (Waiting::Exists, Reply::Flag(false)) => self.peel(),
            (Waiting::PeelIsLink, Reply::Flag(true)) => {
                let question = Query::ReadLink(self.at.clone());
                self.expect(Waiting::PeelTarget, question)
            },
            (Waiting::PeelIsLink, Reply::Flag(false)) => self.peel(),
            (Waiting::PeelTarget, Reply::Link(Some(raw))) => {
                let nix = nix_root_path();
                if raw.starts_with(&nix) {
                    let mut pending = self.pending;
                    proof {
                        lemma_views_push(pending@, self.tail);
                    }
                    pending.push(self.tail);
                    let beginning = self.at.clone();
                    let state = Resolution {
                        store: self.store,
                        stop: self.stop,
                        at: self.at,
                        tail: HostPath::empty(),
                        waiting: self.waiting,
                        pending,
                    };
                    state.follow(beginning)
                } else {
                    self.peel()
                }
            },
            (Waiting::PeelTarget, Reply::Link(None)) => self.peel(),
            _ => self.fail(ResolveError::Unexpected),
        }
    }
}

} // verus!
