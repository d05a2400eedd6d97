use vstd::prelude::*;

verus! {

/// Which pipeline is flushing, in the order a frame runs them: build, then layout, then
/// compositing bits, then paint, then composite. A pipeline rejects a mark made once a later
/// phase is flushing, since the pipeline being marked already ran this frame.
#[derive(Clone, Copy, PartialEq, Eq, Debug)]
pub enum FramePhase {
    /// No flush is in progress, so any pipeline may be marked.
    Idle,
    Build,
    Layout,
    CompositingBits,
    Paint,
    Composite,
}

impl FramePhase {
    /// The position of this phase in a frame; `Idle` comes first.
    pub open spec fn rank(self) -> nat {
        match self {
            FramePhase::Idle => 0,
            FramePhase::Build => 1,
            FramePhase::Layout => 2,
            FramePhase::CompositingBits => 3,
            FramePhase::Paint => 4,
            FramePhase::Composite => 5,
        }
    }

    /// Whether this phase runs no later than `other` in a frame.
    pub open spec fn runs_no_later_than(self, other: FramePhase) -> bool {
        self.rank() <= other.rank()
    }

    /// The position of this phase in a frame, `Idle` first.
    pub fn order(self) -> (r: u8)
        ensures
            r == self.rank(),
    {
        match self {
            FramePhase::Idle => 0,
            FramePhase::Build => 1,
            FramePhase::Layout => 2,
            FramePhase::CompositingBits => 3,
            FramePhase::Paint => 4,
            FramePhase::Composite => 5,
        }
    }
}

/// Tracks the phase flushing on one pipeline owner. Only one pipeline flushes at a time, so a
/// single value tracks it.
pub struct PhaseTracker {
    current: FramePhase,
}

/// Restores the phase that was flushing when [`PhaseTracker::enter_phase`] was called, once it
/// is handed back to [`PhaseTracker::exit_phase`].
pub struct PhaseGuard {
    previous: FramePhase,
}

impl PhaseGuard {
    /// The phase this guard restores.
    pub closed spec fn restores(self) -> FramePhase {
        self.previous
    }
}

impl PhaseTracker {
    /// The phase now flushing.
    pub closed spec fn phase(self) -> FramePhase {
        self.current
    }

    /// A tracker at idle, with no flush in progress.
    pub fn new() -> (r: PhaseTracker)
        ensures
            r.phase() == FramePhase::Idle,
    {
        PhaseTracker { current: FramePhase::Idle }
    }

    /// The phase now flushing.
    pub fn current(&self) -> (r: FramePhase)
        ensures
            r == self.phase(),
    {
        self.current
    }

    /// Whether a pipeline whose phase is `own` may be marked now: it may unless a phase later
    /// than `own` is flushing, since that already-flushed pipeline cannot act on the mark this
    /// frame.
    pub fn can_mark(&self, own: FramePhase) -> (r: bool)
        ensures
            r == self.phase().runs_no_later_than(own),
    {
        self.current.order() <= own.order()
    }

    /// Asserts a pipeline whose phase is `own` may be marked at the phase now flushing. Marking
    /// once a later phase is flushing is a caller error, ruled out by the precondition.
    pub fn assert_can_mark(&self, own: FramePhase)
        requires
            self.phase().runs_no_later_than(own),
    {
    }

    /// Sets `phase` as flushing until the returned guard is handed back to
    /// [`exit_phase`](Self::exit_phase), which restores the phase flushing before.
    pub fn enter_phase(&mut self, phase: FramePhase) -> (guard: PhaseGuard)
        ensures
            final(self).phase() == phase,
            guard.restores() == old(self).phase(),
    {
        let previous = self.current;
        self.current = phase;
        PhaseGuard { previous }
    }

    /// Restores the phase `guard` was taken over.
    pub fn exit_phase(&mut self, guard: PhaseGuard)
        ensures
            final(self).phase() == guard.restores(),
    {
        self.current = guard.previous;
    }
}

/// Entering a phase and handing its guard back restores the phase that was flushing before:
/// a tracker `entered` in the state `enter_phase` leaves behind, with the guard it returned,
/// ends in the starting phase once `exit_phase` takes that guard back.
pub proof fn lemma_enter_then_exit_restores(
    start: PhaseTracker,
    entered: PhaseTracker,
    guard: PhaseGuard,
    exited: PhaseTracker,
    phase: FramePhase,
)
    requires
        entered.phase() == phase,
        guard.restores() == start.phase(),
        exited.phase() == guard.restores(),
    ensures
        exited.phase() == start.phase(),
{
}

/// At idle every pipeline may be marked; during a phase, exactly the pipelines of that phase
/// and of the phases after it may be.
pub proof fn lemma_marking_follows_frame_order(current: FramePhase, own: FramePhase)
    ensures
        current == FramePhase::Idle ==> current.runs_no_later_than(own),
        current.runs_no_later_than(own) <==> current.rank() <= own.rank(),
        current.runs_no_later_than(current),
{
}

} // verus!
