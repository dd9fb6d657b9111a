//! Supervisor: session registry, focus tracking and frame routing.
//!
//! The supervisor owns the set of live capture sessions, keyed by window
//! handle, and the last focus-change event. The application's event loop
//! drains its channels and feeds every message into the methods here; each
//! method returns the actions the loop must perform (start a worker, join a
//! finished worker, forward a frame, broadcast shutdown).

use vstd::prelude::*;

use crate::window_capture::CapturedFrame;

verus! {

/// Commands the supervisor sends to the viewer.
pub enum ImageViewerCommand {
    /// Display this frame.
    Update(CapturedFrame),
    /// Shut down.
    Quit,
}

/// Messages the viewer reports to the supervisor.
#[derive(Clone, Copy)]
pub enum ImageViewerMessage {
    /// The viewer surface was dismissed.
    Closed,
}

/// Commands the supervisor sends to the focus watcher.
pub enum ForegroundWatcherCommand {
    Quit,
}

/// Messages the focus watcher reports to the supervisor.
#[derive(Clone, Copy)]
pub enum ForegroundWatcherMessage {
    /// The foreground window changed to `hwnd`.
    WindowChanged { hwnd: isize },
}

/// Commands the supervisor sends to the operator shell.
pub enum StdinShellCommand {
    Quit,
}

/// Messages the operator shell reports to the supervisor. Reserved extension
/// point: no meaningful variant is defined yet, and none is ever sent; the
/// verifier requires at least one variant, so a placeholder stands here.
#[derive(Clone, Copy)]
pub enum StdinShellMessage {
    Reserved,
}

/// Supervisor state: the registry of live session handles and the last
/// reported focus. The channels and join handles of each session are owned
/// by the application, keyed by the same handles.
pub struct Driver {
    sessions: Vec<isize>,
    current_hwnd: Option<isize>,
}

impl Driver {
    /// Handles of the live capture sessions, in registration order.
    pub closed spec fn registry(self) -> Seq<isize> {
        self.sessions@
    }

    /// The last window handle reported focused, if any.
    pub closed spec fn focus(self) -> Option<isize> {
        self.current_hwnd
    }

    /// At most one session per window handle.
    pub open spec fn wf(self) -> bool {
        forall|i: int, j: int|
            0 <= i < j < self.registry().len() ==> self.registry()[i] != self.registry()[j]
    }

    pub fn new() -> (d: Driver)
        ensures
            d.registry() == Seq::<isize>::empty(),
            d.focus() is None,
            d.wf(),
    {
        Driver { sessions: Vec::new(), current_hwnd: None }
    }

    /// The focus handle, as the application and tests observe it.
    pub fn current_focus(&self) -> (f: Option<isize>)
        ensures
            f == self.focus(),
    {
        self.current_hwnd
    }

    /// How many sessions are live.
    pub fn session_count(&self) -> (n: usize)
        ensures
            n == self.registry().len(),
    {
        self.sessions.len()
    }

    /// Whether a session for `hwnd` is live.
    pub fn contains_session(&self, hwnd: isize) -> (b: bool)
        ensures
            b == self.registry().contains(hwnd),
    {
        vec_contains(&self.sessions, hwnd)
    }
}

impl Driver {
    /// Shutdown fan-out: the commands to send, one each, to the viewer, the
    /// focus watcher and the shell when the viewer reports closure.
    pub fn quit(&self) -> (cmds: (ImageViewerCommand, ForegroundWatcherCommand, StdinShellCommand))
        ensures
            cmds.0 is Quit,
            cmds.1 is Quit,
            cmds.2 is Quit,
    {
        (ImageViewerCommand::Quit, ForegroundWatcherCommand::Quit, StdinShellCommand::Quit)
    }

    /// A viewer message asks for shutdown exactly when it reports closure.
    pub fn handle_image_viewer_message(&self, msg: &ImageViewerMessage) -> (quit: bool)
        ensures
            quit == (msg is Closed),
    {
        match msg {
            ImageViewerMessage::Closed => true,
        }
    }

    /// No shell message variant carries meaning yet: nothing happens.
    pub fn handle_stdin_shell_message(&self, msg: StdinShellMessage) {
        match msg {
            StdinShellMessage::Reserved => {},
        }
    }

    /// A focus change makes `hwnd` the current focus and, when no session
    /// for it is live, registers one; the caller must then start a capture
    /// worker for the returned handle. Idempotent on the registry.
    pub fn handle_foreground_watcher_message(&mut self, msg: ForegroundWatcherMessage) -> (started:
        Option<isize>)
        requires
            old(self).wf(),
        ensures
            final(self).wf(),
            msg matches ForegroundWatcherMessage::WindowChanged { hwnd } ==> {
                &&& final(self).focus() == Some(hwnd)
                &&& (old(self).registry().contains(hwnd) ==> started is None
                    && final(self).registry() == old(self).registry())
                &&& (!old(self).registry().contains(hwnd) ==> started == Some(hwnd)
                    && final(self).registry() == old(self).registry().push(hwnd))
            },
    {
        match msg {
            ForegroundWatcherMessage::WindowChanged { hwnd } => {
                self.current_hwnd = Some(hwnd);
                if !vec_contains(&self.sessions, hwnd) {
                    proof {
                        assert forall|a: int, b: int|
                            0 <= a < b < self.sessions@.len() implies self.sessions@[a]
                            != self.sessions@[b] by {
                            assert(old(self).registry()[a] != old(self).registry()[b]);
                        }
                        lemma_push_distinct(self.sessions@, hwnd);
                    }
                    self.sessions.push(hwnd);
                    proof {
                        assert forall|a: int, b: int|
                            0 <= a < b < self.registry().len() implies self.registry()[a]
                            != self.registry()[b] by {
                            assert(self.sessions@[a] != self.sessions@[b]);
                        }
                    }
                    Some(hwnd)
                } else {
                    proof {
                        assert forall|a: int, b: int|
                            0 <= a < b < self.registry().len() implies self.registry()[a]
                            != self.registry()[b] by {
                            assert(old(self).registry()[a] != old(self).registry()[b]);
                        }
                    }
                    None
                }
            },
        }
    }

    /// Frame routing: a drained frame is forwarded to the viewer exactly
    /// when its handle equals the current focus; otherwise it is dropped,
    /// not requeued.
    pub fn route_frame(&self, frame: CapturedFrame) -> (fwd: Option<ImageViewerCommand>)
        ensures
            self.focus() == Some(frame.hwnd) ==> fwd == Some(ImageViewerCommand::Update(frame)),
            self.focus() != Some(frame.hwnd) ==> fwd is None,
    {
        match self.current_hwnd {
            Some(h) => if h == frame.hwnd {
                Some(ImageViewerCommand::Update(frame))
            } else {
                None
            },
            None => None,
        }
    }

    /// Closure handling, two-phase as one supervisor iteration requires:
    /// every session whose worker reported closure is removed from the
    /// registry, and exactly those handles come back, each once; the caller
    /// must join their execution contexts before doing anything else.
    pub fn handle_captures_message(&mut self, closed: &Vec<isize>) -> (to_join: Vec<isize>)
        requires
            old(self).wf(),
        ensures
            final(self).wf(),
            final(self).focus() == old(self).focus(),
            forall|h: isize|
                final(self).registry().contains(h) <==> (old(self).registry().contains(h)
                    && !closed@.contains(h)),
            forall|h: isize|
                #[trigger] to_join@.contains(h) <==> (old(self).registry().contains(h)
                    && closed@.contains(h)),
            forall|a: int, b: int| 0 <= a < b < to_join@.len() ==> to_join@[a] != to_join@[b],
    {
        let ghost s0 = self.sessions@;
        proof {
            assert forall|a: int, b: int| 0 <= a < b < s0.len() implies s0[a] != s0[b] by {
                assert(old(self).registry()[a] != old(self).registry()[b]);
            }
        }
        let mut kept: Vec<isize> = Vec::new();
        let mut to_join: Vec<isize> = Vec::new();
        let mut i: usize = 0;
        while i < self.sessions.len()
            invariant
                self.sessions@ == s0,
                forall|a: int, b: int| 0 <= a < b < s0.len() ==> s0[a] != s0[b],
                0 <= i <= s0.len(),
                forall|h: isize|
                    #[trigger] kept@.contains(h) <==> (s0.take(i as int).contains(h)
                        && !closed@.contains(h)),
                forall|h: isize|
                    #[trigger] to_join@.contains(h) <==> (s0.take(i as int).contains(h)
                        && closed@.contains(h)),
                forall|a: int, b: int| 0 <= a < b < kept@.len() ==> kept@[a] != kept@[b],
                forall|a: int, b: int| 0 <= a < b < to_join@.len() ==> to_join@[a] != to_join@[b],
            decreases s0.len() - i,
        {
            let h = self.sessions[i];
            proof {
                lemma_take_step(s0, i as int);
                assert(!s0.take(i as int).contains(h)) by {
                    if s0.take(i as int).contains(h) {
                        let k = choose|k: int|
                            0 <= k < i && (#[trigger] s0.take(i as int)[k]) == h;
                        assert(s0[k] == h);
                    }
                }
            }
            let ghost tj0 = to_join@;
            let ghost kp0 = kept@;
            if vec_contains(closed, h) {
                proof {
                    lemma_push_distinct(tj0, h);
                }
                to_join.push(h);
                proof {
                    lemma_push_membership(tj0, h);
                }
            } else {
                proof {
                    lemma_push_distinct(kp0, h);
                }
                kept.push(h);
                proof {
                    lemma_push_membership(kp0, h);
                }
            }
            i += 1;
        }
        proof {
            assert(s0.take(s0.len() as int) =~= s0);
        }
        self.sessions = kept;
        to_join
    }
}

/// Pushing an element: membership afterwards is membership before, or
/// equality with the new element.
proof fn lemma_push_membership<T>(s: Seq<T>, x: T)
    ensures
        forall|h: T| #[trigger] s.push(x).contains(h) <==> (s.contains(h) || h == x),
{
    assert forall|h: T| #[trigger] s.push(x).contains(h) <==> (s.contains(h) || h == x) by {
        if s.push(x).contains(h) {
            let k = choose|k: int| 0 <= k < s.push(x).len() && (#[trigger] s.push(x)[k]) == h;
            if k < s.len() {
                assert(s[k] == h);
            }
        }
        if s.contains(h) {
            let k = choose|k: int| 0 <= k < s.len() && (#[trigger] s[k]) == h;
            assert(s.push(x)[k] == h);
        }
        if h == x {
            assert(s.push(x)[s.len() as int] == h);
        }
    }
}

/// Pushing a fresh element onto a duplicate-free sequence keeps it
/// duplicate-free.
proof fn lemma_push_distinct(s: Seq<isize>, x: isize)
    requires
        !s.contains(x),
        forall|a: int, b: int| 0 <= a < b < s.len() ==> s[a] != s[b],
    ensures
        forall|a: int, b: int| 0 <= a < b < s.push(x).len() ==> s.push(x)[a] != s.push(x)[b],
{
    assert forall|a: int, b: int|
        0 <= a < b < s.push(x).len() implies s.push(x)[a] != s.push(x)[b] by {
        if b == s.len() {
            assert(s[a] != x) by {
                if s[a] == x {
                    assert(s.contains(x));
                }
            }
        }
    }
}

/// One session's channels drained for one supervisor iteration: whether its
/// worker reported closure, and its pending frame if one was available.
pub struct SessionPoll {
    pub hwnd: isize,
    pub closed: bool,
    pub frame: Option<CapturedFrame>,
}

/// Everything the application must perform after one supervisor iteration.
pub struct IterationActions {
    /// Send one Quit command each to the viewer, the focus watcher and the
    /// shell.
    pub quit: bool,
    /// Start a capture worker bound to this handle.
    pub start: Option<isize>,
    /// Join these workers' execution contexts, each exactly once, before the
    /// next iteration.
    pub to_join: Vec<isize>,
    /// Send these frames to the viewer, in order.
    pub forward: Vec<CapturedFrame>,
}

/// Whether any poll reports closure for handle `h`.
pub open spec fn reports_closed(polls: Seq<SessionPoll>, h: isize) -> bool {
    exists|i: int| 0 <= i < polls.len() && polls[i].closed && polls[i].hwnd == h
}

/// The frames one iteration forwards to the viewer, in poll order: the
/// pending frame of every session that did not report closure in the same
/// iteration, provided its handle equals the current focus. Everything else
/// is dropped, never queued.
pub open spec fn forwarded_frames(polls: Seq<SessionPoll>, focus: Option<isize>) -> Seq<
    CapturedFrame,
>
    decreases polls.len(),
{
    if polls.len() == 0 {
        Seq::empty()
    } else {
        let rest = forwarded_frames(polls.drop_last(), focus);
        match polls.last().frame {
            Some(f) => if !polls.last().closed && focus == Some(f.hwnd) {
                rest.push(f)
            } else {
                rest
            },
            None => rest,
        }
    }
}

impl Driver {
    /// One full supervisor iteration over everything the application drained
    /// from its channels: viewer status first, then the focus change, then
    /// the shell, then every session's closure report, and frames last — so
    /// a frame of a session that reported closure in this same iteration is
    /// never forwarded.
    pub fn run_iteration(
        &mut self,
        viewer: Option<ImageViewerMessage>,
        watcher: Option<ForegroundWatcherMessage>,
        shell: Option<StdinShellMessage>,
        polls: Vec<SessionPoll>,
    ) -> (actions: IterationActions)
        requires
            old(self).wf(),
            forall|i: int, j: int| 0 <= i < j < polls@.len() ==> polls@[i].hwnd != polls@[j].hwnd,
            forall|i: int|
                0 <= i < polls@.len() ==> old(self).registry().contains(
                    #[trigger] polls@[i].hwnd,
                ),
        ensures
            final(self).wf(),
            actions.quit == (viewer is Some),
            watcher matches Some(ForegroundWatcherMessage::WindowChanged { hwnd })
                ==> final(self).focus() == Some(hwnd) && actions.start == (if old(
                self,
            ).registry().contains(hwnd) {
                None::<isize>
            } else {
                Some(hwnd)
            }),
            watcher is None ==> final(self).focus() == old(self).focus() && actions.start is None,
            forall|h: isize|
                final(self).registry().contains(h) <==> ((old(self).registry().contains(h) || (
                watcher matches Some(ForegroundWatcherMessage::WindowChanged { hwnd }) && h == hwnd))
                    && !reports_closed(polls@, h)),
            forall|h: isize| #[trigger] actions.to_join@.contains(h) <==> reports_closed(polls@, h),
            forall|a: int, b: int|
                0 <= a < b < actions.to_join@.len() ==> actions.to_join@[a]
                    != actions.to_join@[b],
            actions.forward@ == forwarded_frames(polls@, final(self).focus()),
            forall|j: int|
                0 <= j < actions.forward@.len() ==> final(self).focus() == Some(
                    #[trigger] actions.forward@[j].hwnd,
                ),
    {
        let quit: bool = match &viewer {
            Some(m) => self.handle_image_viewer_message(m),
            None => false,
        };
        let start: Option<isize> = match watcher {
            Some(m) => self.handle_foreground_watcher_message(m),
            None => None,
        };
        match shell {
            Some(m) => self.handle_stdin_shell_message(m),
            None => {},
        }
        let ghost mid = self.registry();
        proof {
            match watcher {
                Some(ForegroundWatcherMessage::WindowChanged { hwnd }) => {
                    if !old(self).registry().contains(hwnd) {
                        lemma_push_membership(old(self).registry(), hwnd);
                    }
                },
                None => {},
            }
            assert forall|h: isize| #[trigger]
                mid.contains(h) <==> (old(self).registry().contains(h) || (
            watcher matches Some(ForegroundWatcherMessage::WindowChanged { hwnd }) && h == hwnd
                && !old(self).registry().contains(hwnd))) by {}
        }
        let mut closed: Vec<isize> = Vec::new();
        let mut i: usize = 0;
        while i < polls.len()
            invariant
                0 <= i <= polls@.len(),
                forall|h: isize|
                    #[trigger] closed@.contains(h) <==> reports_closed(
                        polls@.take(i as int),
                        h,
                    ),
            decreases polls@.len() - i,
        {
            let ghost c0 = closed@;
            if polls[i].closed {
                closed.push(polls[i].hwnd);
                proof {
                    lemma_push_membership(c0, polls@[i as int].hwnd);
                }
            }
            proof {
                lemma_reports_closed_step(polls@, i as int);
            }
            i += 1;
        }
        proof {
            assert(polls@.take(polls@.len() as int) =~= polls@);
        }
        let to_join: Vec<isize> = self.handle_captures_message(&closed);
        proof {
            assert forall|h: isize| #[trigger]
                to_join@.contains(h) <==> reports_closed(polls@, h) by {
                if reports_closed(polls@, h) {
                    let k = choose|k: int|
                        0 <= k < polls@.len() && (#[trigger] polls@[k]).closed && polls@[k].hwnd
                            == h;
                    assert(old(self).registry().contains(polls@[k].hwnd));
                }
            }
        }
        proof {
            assert forall|h: isize| #[trigger]
                self.registry().contains(h) <==> ((old(self).registry().contains(h) || (
            watcher matches Some(ForegroundWatcherMessage::WindowChanged { hwnd }) && h == hwnd))
                && !reports_closed(polls@, h)) by {
                assert(closed@.contains(h) <==> reports_closed(polls@, h));
                assert(self.registry().contains(h) <==> (mid.contains(h) && !closed@.contains(h)));
                assert(mid.contains(h) <==> (old(self).registry().contains(h) || (
                watcher matches Some(ForegroundWatcherMessage::WindowChanged { hwnd }) && h == hwnd
                    && !old(self).registry().contains(hwnd))));
            }
        }
        let ghost focus_now = self.focus();
        let ghost ps = polls@;
        let mut polls = polls;
        let mut forward: Vec<CapturedFrame> = Vec::new();
        let mut n: usize = 0;
        while polls.len() > 0
            invariant
                ps.len() <= usize::MAX,
                0 <= n <= ps.len(),
                polls@ == ps.skip(n as int),
                n as int + polls@.len() == ps.len(),
                forward@ == forwarded_frames(ps.take(n as int), focus_now),
                self.focus() == focus_now,
            decreases polls@.len(),
        {
            let p = polls.remove(0);
            proof {
                assert(p == ps.skip(n as int)[0]);
                assert(ps.skip(n as int)[0] == ps[n as int]);
                assert(polls@ =~= ps.skip(n as int + 1));
                assert(ps.take(n as int + 1).drop_last() =~= ps.take(n as int));
                assert(ps.take(n as int + 1).last() == ps[n as int]);
            }
            let is_live = !p.closed;
            match p.frame {
                Some(f) => {
                    let is_focus = match self.current_focus() {
                        Some(h) => h == f.hwnd,
                        None => false,
                    };
                    if is_live && is_focus {
                        forward.push(f);
                    }
                },
                None => {},
            }
            n += 1;
        }
        proof {
            assert(ps.take(ps.len() as int) =~= ps);
        }
        let actions = IterationActions { quit, start, to_join, forward };
        proof {
            lemma_forwarded_frames_focus(ps, focus_now);
        }
        actions
    }
}

/// Closure reports of a one-longer prefix: a handle is reported closed in
/// `polls.take(i + 1)` exactly when it is reported closed in `polls.take(i)`
/// or by `polls[i]` itself.
proof fn lemma_reports_closed_step(polls: Seq<SessionPoll>, i: int)
    requires
        0 <= i < polls.len(),
    ensures
        forall|h: isize|
            reports_closed(polls.take(i + 1), h) <==> (reports_closed(polls.take(i), h) || (
            polls[i].closed && polls[i].hwnd == h)),
{
    assert forall|h: isize|
        reports_closed(polls.take(i + 1), h) <==> (reports_closed(polls.take(i), h) || (
        polls[i].closed && polls[i].hwnd == h)) by {
        if reports_closed(polls.take(i + 1), h) {
            let k = choose|k: int|
                0 <= k < polls.take(i + 1).len() && (#[trigger] polls.take(i + 1)[k]).closed
                    && polls.take(i + 1)[k].hwnd == h;
            if k < i {
                assert(polls.take(i)[k] == polls.take(i + 1)[k]);
                assert(reports_closed(polls.take(i), h));
            } else {
                assert(polls.take(i + 1)[i] == polls[i]);
            }
        }
        if reports_closed(polls.take(i), h) {
            let k = choose|k: int|
                0 <= k < polls.take(i).len() && (#[trigger] polls.take(i)[k]).closed && polls.take(
                    i,
                )[k].hwnd == h;
            assert(polls.take(i + 1)[k] == polls.take(i)[k]);
            assert(reports_closed(polls.take(i + 1), h));
        }
        if polls[i].closed && polls[i].hwnd == h {
            assert(polls.take(i + 1)[i] == polls[i]);
            assert(reports_closed(polls.take(i + 1), h));
        }
    }
}

/// Only frames of the current focus are ever forwarded.
pub proof fn lemma_forwarded_frames_focus(polls: Seq<SessionPoll>, focus: Option<isize>)
    ensures
        forall|j: int|
            0 <= j < forwarded_frames(polls, focus).len() ==> focus == Some(
                #[trigger] forwarded_frames(polls, focus)[j].hwnd,
            ),
    decreases polls.len(),
{
    if polls.len() > 0 {
        lemma_forwarded_frames_focus(polls.drop_last(), focus);
        let rest = forwarded_frames(polls.drop_last(), focus);
        let fw = forwarded_frames(polls, focus);
        assert forall|j: int| 0 <= j < fw.len() implies focus == Some(fw[j].hwnd) by {
            if j < rest.len() {
                assert(rest[j].hwnd == fw[j].hwnd);
            }
        }
    }
}

/// A frame no live poll carries is never forwarded.
proof fn lemma_absent_frame_not_forwarded(polls: Seq<SessionPoll>, focus: Option<isize>, f: CapturedFrame)
    requires
        forall|k: int| 0 <= k < polls.len() ==> (#[trigger] polls[k]).frame != Some(f),
    ensures
        !forwarded_frames(polls, focus).contains(f),
    decreases polls.len(),
{
    if polls.len() > 0 {
        assert forall|k: int|
            0 <= k < polls.drop_last().len() implies (#[trigger] polls.drop_last()[k]).frame
            != Some(f) by {
            assert(polls.drop_last()[k] == polls[k]);
        }
        lemma_absent_frame_not_forwarded(polls.drop_last(), focus, f);
        let rest = forwarded_frames(polls.drop_last(), focus);
        let fw = forwarded_frames(polls, focus);
        assert(!fw.contains(f)) by {
            if fw.contains(f) {
                let k = choose|k: int| 0 <= k < fw.len() && (#[trigger] fw[k]) == f;
                if k < rest.len() {
                    assert(rest[k] == f);
                    assert(rest.contains(f));
                } else {
                    assert(polls.last().frame == Some(fw[k]));
                    assert(polls[polls.len() - 1].frame == Some(f));
                }
            }
        }
    }
}

/// Closure wins over delivery: when one session's worker reports closure in
/// the same iteration in which its still-unread frame `f` is drained — and
/// no other session's poll carries that same frame value — `f` is never
/// forwarded to the viewer.
pub proof fn lemma_closure_blocks_frame(
    polls: Seq<SessionPoll>,
    focus: Option<isize>,
    i: int,
    f: CapturedFrame,
)
    requires
        0 <= i < polls.len(),
        polls[i].closed,
        polls[i].frame == Some(f),
        forall|k: int| 0 <= k < polls.len() && k != i ==> (#[trigger] polls[k]).frame != Some(f),
    ensures
        !forwarded_frames(polls, focus).contains(f),
    decreases polls.len(),
{
    let rest = forwarded_frames(polls.drop_last(), focus);
    let fw = forwarded_frames(polls, focus);
    if i == polls.len() - 1 {
        assert forall|k: int|
            0 <= k < polls.drop_last().len() implies (#[trigger] polls.drop_last()[k]).frame
            != Some(f) by {
            assert(polls.drop_last()[k] == polls[k]);
        }
        lemma_absent_frame_not_forwarded(polls.drop_last(), focus, f);
        assert(fw == rest);
    } else {
        assert forall|k: int|
            0 <= k < polls.drop_last().len() && k != i implies (#[trigger] polls.drop_last()[
            k]).frame != Some(f) by {
            assert(polls.drop_last()[k] == polls[k]);
        }
        assert(polls.drop_last()[i] == polls[i]);
        lemma_closure_blocks_frame(polls.drop_last(), focus, i, f);
        assert(!fw.contains(f)) by {
            if fw.contains(f) {
                let k = choose|k: int| 0 <= k < fw.len() && (#[trigger] fw[k]) == f;
                if k < rest.len() {
                    assert(rest[k] == f);
                    assert(rest.contains(f));
                } else {
                    assert(polls.last().frame == Some(fw[k]));
                    assert(polls[polls.len() - 1].frame == Some(f));
                }
            }
        }
    }
}

/// At most one session per handle: in a well-formed supervisor, two registry
/// entries holding the same handle are the same entry.
pub proof fn lemma_at_most_one_session(d: Driver, i: int, j: int)
    requires
        d.wf(),
        0 <= i < d.registry().len(),
        0 <= j < d.registry().len(),
        d.registry()[i] == d.registry()[j],
    ensures
        i == j,
{
}

/// Membership in a one-longer prefix: an element of `s.take(i + 1)` is an
/// element of `s.take(i)` or is `s[i]`, and conversely.
proof fn lemma_take_step(s: Seq<isize>, i: int)
    requires
        0 <= i < s.len(),
    ensures
        forall|h: isize|
            #[trigger] s.take(i + 1).contains(h) <==> (s.take(i).contains(h) || s[i] == h),
{
    assert forall|h: isize|
        #[trigger] s.take(i + 1).contains(h) <==> (s.take(i).contains(h) || s[i] == h) by {
        if s.take(i + 1).contains(h) {
            let k = choose|k: int| 0 <= k < i + 1 && (#[trigger] s.take(i + 1)[k]) == h;
            if k < i {
                assert(s.take(i)[k] == h);
            } else {
                assert(s[i] == h);
            }
        }
        if s.take(i).contains(h) {
            let k = choose|k: int| 0 <= k < i && (#[trigger] s.take(i)[k]) == h;
            assert(s.take(i + 1)[k] == h);
        }
        if s[i] == h {
            assert(s.take(i + 1)[i] == h);
        }
    }
}

/// Whether `v` holds `x`.
fn vec_contains(v: &Vec<isize>, x: isize) -> (b: bool)
    ensures
        b == v@.contains(x),
{
    let mut i: usize = 0;
    while i < v.len()
        invariant
            0 <= i <= v@.len(),
            forall|j: int| 0 <= j < i ==> v@[j] != x,
        decreases v@.len() - i,
    {
        if v[i] == x {
            return true;
        }
        i += 1;
    }
    false
}

} // verus!
