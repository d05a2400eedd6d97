use vstd::prelude::*;

use crate::manager::event::lemma_filter_keeps_order;
use crate::pipeline::layout::LayoutScope;
use crate::pipeline::order;
use crate::pipeline::order::DepthEntry;
use crate::pipeline::order::{lemma_filter_distinct, lemma_filter_membership, lemma_filter_take_step};
use crate::pipeline::paint::PaintScope;
use crate::pipeline::phase::{FramePhase, PhaseGuard, PhaseTracker};
use crate::pipeline::registry::{key_shaped, null_key_id, registry_capacity, BoundaryCell};

pub mod layout;
pub mod paint;

use self::layout::{DeferredLayoutScope, LayoutBoundaryHandle, LayoutState};
use self::paint::{
    enqueued_bits, enqueued_repaint, DeferredPaintScope, PaintBoundaryHandle, PaintState,
};

verus! {

/// Tracks the phase a frame is in and whether a frame has been requested since the driver last
/// ran one.
pub struct FrameScheduler {
    phase: PhaseTracker,
    requested: bool,
}

impl FrameScheduler {
    /// The phase now flushing.
    pub closed spec fn phase(&self) -> FramePhase {
        self.phase.phase()
    }

    /// Whether a frame was requested since the last [`reset_notified`](Self::reset_notified).
    pub closed spec fn requested(&self) -> bool {
        self.requested
    }

    /// An idle scheduler with no frame requested.
    pub fn new() -> (scheduler: FrameScheduler)
        ensures
            scheduler.phase() == FramePhase::Idle,
            !scheduler.requested(),
    {
        FrameScheduler { phase: PhaseTracker::new(), requested: false }
    }

    /// Requests a frame.
    pub fn notify(&mut self)
        ensures
            final(self).requested(),
            final(self).phase() == old(self).phase(),
    {
        self.requested = true;
    }

    /// Re-arms the request, at the start of a frame.
    pub fn reset_notified(&mut self)
        ensures
            !final(self).requested(),
            final(self).phase() == old(self).phase(),
    {
        self.requested = false;
    }
}

/// Re-lays one relayout boundary's subtree from the constraints it captured. The driver
/// implements it over the boundary's render object.
pub trait LayoutHooks {
    /// The boundaries these hooks have re-laid so far, in order. Every implementation is meant to
    /// define it over ghost state it keeps (a `Ghost` field) and so meet the contracts below. The
    /// empty default exists only so that implementations outside verified code compile; it meets
    /// none of those contracts, and what is proved of callers holds of such an implementation only
    /// if it does what the contracts say.
    closed spec fn relaid(&self) -> Seq<u64> {
        Seq::empty()
    }

    /// Re-lays the boundary `scope` names.
    fn relayout(&mut self, scope: LayoutScope)
        ensures
            final(self).relaid() == old(self).relaid().push(scope.id()),
    ;
}

/// Whether `relaid` re-lays, once each and rootmost-first by the depths in `cells` (ties by
/// id), exactly the boundaries named in `marks` that are registered in `cells`.
pub open spec fn relays_marked(cells: Map<u64, BoundaryCell>, marks: Seq<u64>, relaid: Seq<u64>) -> bool {
    &&& relaid.no_duplicates()
    &&& forall|id: u64| relaid.contains(id) <==> marks.contains(id) && cells.dom().contains(id)
    &&& layout::drains_rootmost_first(cells, relaid)
}

/// Recomputes one repaint boundary's compositing bits, and repaints one boundary into its
/// layer. The driver implements it over the boundaries' render objects and layers.
/// One call of the paint hooks: a compositing-bits recompute with what it reported, or a
/// repaint.
#[derive(Debug, Clone, Copy, PartialEq, Eq)]
pub enum PaintCall {
    Bits(u64, bool),
    Repaint(u64),
}

/// Whether every call of `calls` from `start` to `end` is a compositing-bits recompute, or,
/// where `repaint`, a repaint.
pub open spec fn calls_are(calls: Seq<PaintCall>, start: int, end: int, repaint: bool) -> bool {
    forall|k: int| start <= k < end ==> (if repaint { #[trigger] calls[k] is Repaint } else { calls[k] is Bits })
}

pub trait PaintHooks {
    /// The boundaries whose compositing bits these hooks have recomputed so far, in order, each
    /// with whether its compositing need changed. Every implementation is meant to define it over
    /// ghost state it keeps (a `Ghost` field) and so meet the contracts below. The empty default
    /// exists only so that implementations outside verified code compile; it meets none of those
    /// contracts, and what is proved of callers holds of such an implementation only if it does
    /// what the contracts say.
    closed spec fn bits_log(&self) -> Seq<(u64, bool)> {
        Seq::empty()
    }

    /// The boundaries these hooks have repainted so far, in order; kept and defined as
    /// [`bits_log`](Self::bits_log) is.
    closed spec fn repainted(&self) -> Seq<u64> {
        Seq::empty()
    }

    /// Every call of these hooks so far, of either kind, in order; kept and defined as
    /// [`bits_log`](Self::bits_log) is.
    closed spec fn calls(&self) -> Seq<PaintCall> {
        Seq::empty()
    }

    /// Recomputes the compositing bits of the boundary `scope` names, returning whether its
    /// compositing need changed, in which case it repaints.
    fn update_compositing_bits(&mut self, scope: PaintScope) -> (changed: bool)
        ensures
            final(self).bits_log() == old(self).bits_log().push((scope.id(), changed)),
            final(self).repainted() == old(self).repainted(),
            final(self).calls() == old(self).calls().push(PaintCall::Bits(scope.id(), changed)),
    ;

    /// Clears the layer of the boundary `scope` names and repaints its render object into it.
    fn repaint(&mut self, scope: PaintScope)
        ensures
            final(self).repainted() == old(self).repainted().push(scope.id()),
            final(self).bits_log() == old(self).bits_log(),
            final(self).calls() == old(self).calls().push(PaintCall::Repaint(scope.id())),
    ;
}

/// The boundaries a flush of one channel owes work: those registered in `cells` that are
/// queued on the channel (`repaint`: the repaint channel, else the compositing-bits one) or
/// marked for it out of band in `deferred`.
pub open spec fn owed_work(cells: Map<u64, BoundaryCell>, deferred: Seq<u64>, repaint: bool) -> Set<
    u64,
> {
    Set::new(
        |id: u64|
            cells.dom().contains(id) && ((if repaint {
                cells[id].paint_queued
            } else {
                cells[id].bits_queued
            }) || deferred.contains(id)),
    )
}

/// The boundaries whose recomputed compositing need changed, by what the bits hook reported.
pub open spec fn changed_ids(log: Seq<(u64, bool)>) -> Set<u64> {
    Set::new(|id: u64| log.contains((id, true)))
}

/// The ids a log of compositing-bits recomputations names, in order.
pub open spec fn bits_ids(log: Seq<(u64, bool)>) -> Seq<u64> {
    log.map_values(|e: (u64, bool)| e.0)
}

/// Whether every boundary named in `marks` and registered in `layout_cells` has the repaint
/// boundary enclosing it queued for repaint in `paint_cells`, where that repaint boundary is
/// registered: a re-laid subtree must repaint.
pub open spec fn relaid_repaints_queued(
    layout_cells: Map<u64, BoundaryCell>,
    marks: Seq<u64>,
    paint_cells: Map<u64, BoundaryCell>,
) -> bool {
    forall|id: u64|
        #![trigger layout_cells[id]]
        marks.contains(id) && layout_cells.dom().contains(id) && paint_cells.dom().contains(
            layout_cells[id].paint,
        ) ==> paint_cells[layout_cells[id].paint].paint_queued
}

/// The layout and paint boundaries of one tree, their pending work, and the frame phase.
pub struct RenderPipeline {
    layout: LayoutState,
    paint: PaintState,
    scheduler: FrameScheduler,
}

impl RenderPipeline {
    /// The layout boundaries and their marks.
    pub closed spec fn layout(&self) -> LayoutState {
        self.layout
    }

    /// The repaint boundaries and their channels.
    pub closed spec fn paint(&self) -> PaintState {
        self.paint
    }

    /// The phase now flushing.
    pub closed spec fn phase(&self) -> FramePhase {
        self.scheduler.phase()
    }

    /// Whether a frame was requested since the last reset.
    pub closed spec fn frame_requested(&self) -> bool {
        self.scheduler.requested()
    }

    /// The pipeline's internal consistency.
    pub open spec fn wf(&self) -> bool {
        self.layout().wf() && self.paint().wf()
    }

    /// A pipeline with nothing registered, idle, with no frame requested.
    pub fn new() -> (pipeline: RenderPipeline)
        ensures
            pipeline.wf(),
            pipeline.layout().cells() =~= Map::empty(),
            pipeline.layout().dirty() =~= Seq::empty(),
            pipeline.layout().deferred() =~= Seq::empty(),
            !pipeline.layout().flushing(),
            pipeline.paint().cells() =~= Map::empty(),
            pipeline.paint().bits() =~= Seq::empty(),
            pipeline.paint().repaint() =~= Seq::empty(),
            pipeline.paint().deferred_bits() =~= Seq::empty(),
            pipeline.paint().deferred_repaint() =~= Seq::empty(),
            !pipeline.paint().flushing_bits(),
            !pipeline.paint().flushing_repaint(),
            pipeline.phase() == FramePhase::Idle,
            !pipeline.frame_requested(),
    {
        RenderPipeline {
            layout: LayoutState::new(),
            paint: PaintState::new(),
            scheduler: FrameScheduler::new(),
        }
    }

    /// Re-arms the frame request, at the start of a frame.
    pub fn reset_notified(&mut self)
        ensures
            !final(self).frame_requested(),
            final(self).layout() == old(self).layout(),
            final(self).paint() == old(self).paint(),
            final(self).phase() == old(self).phase(),
    {
        self.scheduler.reset_notified();
    }

    /// Sets `phase` as flushing until the returned guard is handed back to
    /// [`exit_phase`](Self::exit_phase), which restores the phase flushing before.
    pub fn enter_phase(&mut self, phase: FramePhase) -> (guard: PhaseGuard)
        ensures
            final(self).phase() == phase,
            guard.restores() == old(self).phase(),
            final(self).layout() == old(self).layout(),
            final(self).paint() == old(self).paint(),
            final(self).frame_requested() == old(self).frame_requested(),
    {
        self.scheduler.phase.enter_phase(phase)
    }

    /// Restores the phase `guard` was taken over.
    pub fn exit_phase(&mut self, guard: PhaseGuard)
        ensures
            final(self).phase() == guard.restores(),
            final(self).layout() == old(self).layout(),
            final(self).paint() == old(self).paint(),
            final(self).frame_requested() == old(self).frame_requested(),
    {
        self.scheduler.phase.exit_phase(guard);
    }

    /// Registers a relayout boundary nested under `enclosing`.
    pub fn register_layout_boundary(&mut self, enclosing: LayoutScope) -> (handle:
        LayoutBoundaryHandle)
        requires
            old(self).wf(),
            old(self).layout().cells().dom().len() < registry_capacity(),
            old(self).layout().cells().dom().contains(enclosing.id()) ==> old(
                self,
            ).layout().cells()[enclosing.id()].depth < usize::MAX,
        ensures
            final(self).wf(),
            !old(self).layout().cells().dom().contains(handle.id()),
            handle.id() != null_key_id(),
            final(self).layout().cells() == old(self).layout().cells().insert(
                handle.id(),
                layout::fresh_relayout_cell(
                    paint::depth_under(old(self).layout().cells(), enclosing.id()) as usize,
                ),
            ),
            final(self).layout().dirty() == old(self).layout().dirty(),
            final(self).layout().deferred() == old(self).layout().deferred(),
            final(self).layout().flushing() == old(self).layout().flushing(),
            final(self).paint() == old(self).paint(),
            final(self).phase() == old(self).phase(),
            final(self).frame_requested() == old(self).frame_requested(),
    {
        self.layout.register(enclosing)
    }

    /// Registers a repaint boundary nested under `enclosing`, left unmarked.
    pub fn register_paint_boundary(&mut self, enclosing: PaintScope) -> (handle:
        PaintBoundaryHandle)
        requires
            old(self).wf(),
            old(self).paint().cells().dom().len() < registry_capacity(),
            old(self).paint().cells().dom().contains(enclosing.id()) ==> old(
                self,
            ).paint().cells()[enclosing.id()].depth < usize::MAX,
        ensures
            final(self).wf(),
            !old(self).paint().cells().dom().contains(handle.id()),
            handle.id() != null_key_id(),
            final(self).paint().cells() == old(self).paint().cells().insert(
                handle.id(),
                paint::fresh_repaint_cell(
                    paint::depth_under(old(self).paint().cells(), enclosing.id()) as usize,
                ),
            ),
            final(self).paint().bits() == old(self).paint().bits(),
            final(self).paint().repaint() == old(self).paint().repaint(),
            final(self).paint().deferred_bits() == old(self).paint().deferred_bits(),
            final(self).paint().deferred_repaint() == old(self).paint().deferred_repaint(),
            final(self).paint().flushing_bits() == old(self).paint().flushing_bits(),
            final(self).paint().flushing_repaint() == old(self).paint().flushing_repaint(),
            final(self).layout() == old(self).layout(),
            final(self).phase() == old(self).phase(),
            final(self).frame_requested() == old(self).frame_requested(),
    {
        self.paint.register(enclosing)
    }

    /// Unregisters the relayout boundary `handle` owns.
    pub fn unregister_layout_boundary(&mut self, handle: LayoutBoundaryHandle)
        requires
            old(self).wf(),
        ensures
            final(self).wf(),
            final(self).layout().cells() == old(self).layout().cells().remove(handle.id()),
            final(self).layout().dirty() == old(self).layout().dirty(),
            final(self).layout().deferred() == old(self).layout().deferred(),
            final(self).layout().flushing() == old(self).layout().flushing(),
            final(self).paint() == old(self).paint(),
            final(self).phase() == old(self).phase(),
            final(self).frame_requested() == old(self).frame_requested(),
    {
        self.layout.unregister(handle);
    }

    /// Unregisters the repaint boundary `handle` owns.
    pub fn unregister_paint_boundary(&mut self, handle: PaintBoundaryHandle)
        requires
            old(self).wf(),
        ensures
            final(self).wf(),
            final(self).paint().cells() == old(self).paint().cells().remove(handle.id()),
            final(self).paint().bits() == old(self).paint().bits(),
            final(self).paint().repaint() == old(self).paint().repaint(),
            final(self).paint().deferred_bits() == old(self).paint().deferred_bits(),
            final(self).paint().deferred_repaint() == old(self).paint().deferred_repaint(),
            final(self).paint().flushing_bits() == old(self).paint().flushing_bits(),
            final(self).paint().flushing_repaint() == old(self).paint().flushing_repaint(),
            final(self).layout() == old(self).layout(),
            final(self).phase() == old(self).phase(),
            final(self).frame_requested() == old(self).frame_requested(),
    {
        self.paint.unregister(handle);
    }

    /// A deferred handle to `scope`'s relayout boundary.
    pub fn deferred_layout_scope(&self, scope: LayoutScope) -> (marker: DeferredLayoutScope)
        ensures
            marker.id() == scope.id(),
            marker.attached(),
    {
        self.layout.deferred_scope(scope)
    }

    /// A deferred handle to `scope`'s repaint boundary.
    pub fn deferred_paint_scope(&self, scope: PaintScope) -> (marker: DeferredPaintScope)
        ensures
            marker.id() == scope.id(),
            marker.attached(),
    {
        self.paint.deferred_scope(scope)
    }

    /// Marks `scope`'s relayout boundary for re-layout and requests a frame; a mark of a
    /// boundary already gone is ignored. Marking once the layout phase has run this frame, or
    /// while a layout flush holds the marks, is a caller error, ruled out by `requires`.
    pub fn mark_needs_layout(&mut self, scope: LayoutScope)
        requires
            old(self).wf(),
            old(self).phase().runs_no_later_than(FramePhase::Layout),
            old(self).layout().cells().dom().contains(scope.id()) ==> !old(self).layout().flushing(),
        ensures
            final(self).wf(),
            final(self).layout().dirty() == (if old(self).layout().cells().dom().contains(scope.id()) {
                old(self).layout().dirty().push(scope.id())
            } else {
                old(self).layout().dirty()
            }),
            final(self).layout().cells() == old(self).layout().cells(),
            final(self).layout().deferred() == old(self).layout().deferred(),
            final(self).layout().flushing() == old(self).layout().flushing(),
            final(self).paint() == old(self).paint(),
            final(self).phase() == old(self).phase(),
            final(self).frame_requested() == (old(self).frame_requested()
                || old(self).layout().cells().dom().contains(scope.id())),
    {
        self.scheduler.phase.assert_can_mark(FramePhase::Layout);
        if self.layout.mark(scope) {
            self.scheduler.notify();
        }
    }

    /// Marks `scope`'s compositing bits for recomputation before its next repaint, and requests
    /// a frame. The boundary repaints when the recomputation finds its compositing need
    /// changed. Marking once the compositing-bits phase has run this frame, or queueing an
    /// unqueued boundary while a flush holds the channel, is a caller error, ruled out by
    /// `requires`.
    pub fn mark_needs_compositing_bits_update(&mut self, scope: PaintScope)
        requires
            old(self).wf(),
            old(self).phase().runs_no_later_than(FramePhase::CompositingBits),
            old(self).paint().cells().dom().contains(scope.id()) && !old(self).paint().cells()[scope.id()].bits_queued
                ==> !old(self).paint().flushing_bits(),
        ensures
            final(self).wf(),
            (final(self).paint().cells(), final(self).paint().bits()) == enqueued_bits(
                old(self).paint().cells(),
                old(self).paint().bits(),
                scope.id(),
            ),
            final(self).paint().repaint() == old(self).paint().repaint(),
            final(self).paint().deferred_bits() == old(self).paint().deferred_bits(),
            final(self).paint().deferred_repaint() == old(self).paint().deferred_repaint(),
            final(self).paint().flushing_bits() == old(self).paint().flushing_bits(),
            final(self).paint().flushing_repaint() == old(self).paint().flushing_repaint(),
            final(self).layout() == old(self).layout(),
            final(self).phase() == old(self).phase(),
            final(self).frame_requested(),
    {
        self.scheduler.phase.assert_can_mark(FramePhase::CompositingBits);
        self.paint.enqueue_bits(scope);
        self.scheduler.notify();
    }

    /// Marks `scope`'s boundary to be repainted on the next frame, and requests one. Permitted
    /// during the compositing-bits phase, so a bits recompute that changes the need can mark
    /// the repaint it now owes. Marking once the paint phase has run this frame, or queueing an
    /// unqueued boundary while a flush holds the channel, is a caller error, ruled out by
    /// `requires`.
    pub fn mark_needs_paint(&mut self, scope: PaintScope)
        requires
            old(self).wf(),
            old(self).phase().runs_no_later_than(FramePhase::Paint),
            old(self).paint().cells().dom().contains(scope.id()) && !old(self).paint().cells()[scope.id()].paint_queued
                ==> !old(self).paint().flushing_repaint(),
        ensures
            final(self).wf(),
            (final(self).paint().cells(), final(self).paint().repaint()) == enqueued_repaint(
                old(self).paint().cells(),
                old(self).paint().repaint(),
                scope.id(),
            ),
            final(self).paint().bits() == old(self).paint().bits(),
            final(self).paint().deferred_bits() == old(self).paint().deferred_bits(),
            final(self).paint().deferred_repaint() == old(self).paint().deferred_repaint(),
            final(self).paint().flushing_bits() == old(self).paint().flushing_bits(),
            final(self).paint().flushing_repaint() == old(self).paint().flushing_repaint(),
            final(self).layout() == old(self).layout(),
            final(self).phase() == old(self).phase(),
            final(self).frame_requested(),
    {
        self.scheduler.phase.assert_can_mark(FramePhase::Paint);
        self.paint.enqueue_repaint(scope);
        self.scheduler.notify();
    }

    /// Requests a frame to recomposite the subtree. Compositing owns no boundary and a frame
    /// recomposites unconditionally, so this only ensures a frame runs. Requesting once the
    /// composite phase has run this frame is a caller error, ruled out by `requires`.
    pub fn mark_needs_composite(&mut self)
        requires
            old(self).phase().runs_no_later_than(FramePhase::Composite),
        ensures
            final(self).layout() == old(self).layout(),
            final(self).paint() == old(self).paint(),
            final(self).phase() == old(self).phase(),
            final(self).frame_requested(),
    {
        self.scheduler.phase.assert_can_mark(FramePhase::Composite);
        self.scheduler.notify();
    }

    /// Re-lays every marked relayout boundary from the constraints it last took, rootmost-first,
    /// leaving the rest untouched, and marks the repaint boundary enclosing each re-laid one.
    /// `hooks` re-lays each boundary.
    pub fn flush_layout<H: LayoutHooks>(&mut self, hooks: &mut H)
        requires
            old(self).wf(),
            !old(self).layout().flushing(),
            !old(self).paint().flushing_repaint(),
            old(self).phase().runs_no_later_than(FramePhase::Paint),
        ensures
            final(self).wf(),
            final(self).layout().cells() == old(self).layout().cells(),
            final(self).layout().dirty() =~= Seq::empty(),
            final(self).layout().deferred() =~= Seq::empty(),
            !final(self).layout().flushing(),
            final(self).paint().cells().dom() == old(self).paint().cells().dom(),
            final(self).paint().bits() == old(self).paint().bits(),
            final(self).paint().flushing_bits() == old(self).paint().flushing_bits(),
            !final(self).paint().flushing_repaint(),
            final(self).phase() == old(self).phase(),
            relaid_repaints_queued(
                old(self).layout().cells(),
                old(self).layout().dirty() + old(self).layout().deferred(),
                final(self).paint().cells(),
            ),
            final(hooks).relaid() == old(hooks).relaid() + final(hooks).relaid().skip(
                old(hooks).relaid().len() as int,
            ),
            relays_marked(
                old(self).layout().cells(),
                old(self).layout().dirty() + old(self).layout().deferred(),
                final(hooks).relaid().skip(old(hooks).relaid().len() as int),
            ),
    {
        let ghost marks = self.layout.dirty() + self.layout.deferred();
        let ghost cells = self.layout.cells();
        let ghost log0 = hooks.relaid();
        let ghost registered = |id: u64| cells.dom().contains(id);
        let ordered = self.layout.begin_flush();
        let ghost ids = ordered@.map_values(|s: LayoutScope| s.id());
        let mut i: usize = 0;
        while i < ordered.len()
            invariant
                self.wf(),
                i <= ordered.len(),
                self.layout.flushing(),
                self.layout.cells() == old(self).layout().cells(),
                self.layout.dirty() =~= Seq::<u64>::empty(),
                self.layout.deferred() =~= Seq::<u64>::empty(),
                self.paint.cells().dom() == old(self).paint().cells().dom(),
                self.paint.bits() == old(self).paint().bits(),
                self.paint.flushing_bits() == old(self).paint().flushing_bits(),
                !self.paint.flushing_repaint(),
                self.phase() == old(self).phase(),
                self.phase().runs_no_later_than(FramePhase::Paint),
                cells == old(self).layout().cells(),
                ids == ordered@.map_values(|s: LayoutScope| s.id()),
                forall|k: int|
                    0 <= k < i && cells.dom().contains(#[trigger] ids[k]) && self.paint.cells().dom().contains(
                        cells[ids[k]].paint,
                    ) ==> self.paint.cells()[cells[ids[k]].paint].paint_queued,
                log0 == old(hooks).relaid(),
                registered == (|id: u64| cells.dom().contains(id)),
                hooks.relaid() == log0 + ids.take(i as int).filter(registered),
            decreases ordered.len() - i,
        {
            let scope = ordered[i];
            let ghost paint_before = self.paint.cells();
            proof {
                lemma_filter_take_step(ids, registered, i as int);
                assert(scope.id() == ids[i as int]);
            }
            if let Some(paint) = self.layout.take_relayout(scope) {
                hooks.relayout(scope);
                self.mark_needs_paint(paint);
                proof {
                    PaintScope::lemma_from_id_names(cells[scope.id()].paint);
                }
            }
            proof {
                assert(scope.id() == ids[i as int]);
                assert forall|k: int|
                    0 <= k < i + 1 && cells.dom().contains(#[trigger] ids[k])
                        && self.paint.cells().dom().contains(cells[ids[k]].paint)
                        implies self.paint.cells()[cells[ids[k]].paint].paint_queued by {
                    if k < i {
                        assert(paint_before[cells[ids[k]].paint].paint_queued);
                    }
                }
            }
            i = i + 1;
        }
        self.layout.end_flush();
        proof {
            assert forall|id: u64|
                #![trigger cells[id]]
                marks.contains(id) && cells.dom().contains(id) && self.paint.cells().dom().contains(
                    cells[id].paint,
                ) implies self.paint.cells()[cells[id].paint].paint_queued by {
                assert(marks.to_set().contains(id));
                assert(ids.to_set().contains(id));
                let k = choose|k: int| 0 <= k < ids.len() && ids[k] == id;
                assert(cells.dom().contains(ids[k]));
            }
            let relaid = ids.filter(registered);
            assert(ids.take(ids.len() as int) =~= ids);
            assert(hooks.relaid().skip(log0.len() as int) =~= relaid);
            let key = |id: u64| (layout::drain_depth(cells, id), id);
            assert forall|a: int, b: int| 0 <= a < b < ids.len() implies ids[a] != ids[b] by {
                assert(order::entry_before(ids.map_values(key)[a], ids.map_values(key)[b]));
            }
            lemma_filter_distinct(ids, registered);
            assert forall|id: u64| relaid.contains(id) <==> marks.contains(id) && cells.dom().contains(
                id,
            ) by {
                lemma_filter_membership(ids, registered, id);
                assert(ids.contains(id) <==> ids.to_set().contains(id));
                assert(marks.contains(id) <==> marks.to_set().contains(id));
            }
            assert forall|a: int, b: int| 0 <= a < b < relaid.len() implies order::entry_before(
                #[trigger] relaid.map_values(key)[a],
                #[trigger] relaid.map_values(key)[b],
            ) by {
                lemma_filter_keeps_order(ids, registered, a, b);
                let (i1, i2) = choose|i1: int, i2: int|
                    0 <= i1 < i2 < ids.len() && ids[i1] == relaid[a] && ids[i2] == relaid[b];
                assert(order::entry_before(ids.map_values(key)[i1], ids.map_values(key)[i2]));
            }
        }
    }

    /// Recomputes compositing bits, then repaints, the marked repaint boundaries.
    pub fn flush_paint<H: PaintHooks>(&mut self, hooks: &mut H)
        requires
            old(self).wf(),
            !old(self).paint().flushing_bits(),
            !old(self).paint().flushing_repaint(),
        ensures
            final(self).wf(),
            final(self).paint().cells().dom() == old(self).paint().cells().dom(),
            final(self).paint().bits() =~= Seq::empty(),
            final(self).paint().repaint() =~= Seq::empty(),
            final(self).paint().deferred_bits() =~= Seq::empty(),
            final(self).paint().deferred_repaint() =~= Seq::empty(),
            !final(self).paint().flushing_bits(),
            !final(self).paint().flushing_repaint(),
            forall|id: u64| #[trigger]
                final(self).paint().cells().dom().contains(id) ==> !final(self).paint().cells()[id].bits_queued
                    && !final(self).paint().cells()[id].paint_queued,
            final(self).layout() == old(self).layout(),
            final(self).phase() == old(self).phase(),
            final(hooks).bits_log() == old(hooks).bits_log() + final(hooks).bits_log().skip(
                old(hooks).bits_log().len() as int,
            ),
            bits_ids(final(hooks).bits_log().skip(old(hooks).bits_log().len() as int)).no_duplicates(),
            bits_ids(final(hooks).bits_log().skip(old(hooks).bits_log().len() as int)).to_set()
                == owed_work(old(self).paint().cells(), old(self).paint().deferred_bits(), false),
            final(hooks).repainted() == old(hooks).repainted() + final(hooks).repainted().skip(
                old(hooks).repainted().len() as int,
            ),
            final(hooks).repainted().skip(old(hooks).repainted().len() as int).no_duplicates(),
            final(hooks).repainted().skip(old(hooks).repainted().len() as int).to_set() == owed_work(
                old(self).paint().cells(),
                old(self).paint().deferred_repaint(),
                true,
            ) + changed_ids(final(hooks).bits_log().skip(old(hooks).bits_log().len() as int)),
            final(hooks).calls().subrange(0, old(hooks).calls().len() as int) == old(hooks).calls(),
            exists|split: int|
                old(hooks).calls().len() <= split <= final(hooks).calls().len() && calls_are(
                    final(hooks).calls(),
                    old(hooks).calls().len() as int,
                    split,
                    false,
                ) && #[trigger] calls_are(final(hooks).calls(), split, final(hooks).calls().len() as int, true),
    {
        let ghost cells0 = self.paint.cells();
        let ghost bits0 = hooks.bits_log();
        let ghost calls0 = hooks.calls();
        self.flush_compositing_bits(hooks);
        let ghost cells1 = self.paint.cells();
        let ghost bits1 = hooks.bits_log();
        let ghost calls1 = hooks.calls();
        self.flush_repaint(hooks);
        proof {
            let split = calls1.len() as int;
            assert forall|k: int| calls0.len() <= k < split implies (#[trigger] hooks.calls()[k] is Bits) by {
                assert(hooks.calls()[k] == hooks.calls().subrange(0, split)[k]);
                assert(calls1[k] is Bits);
            }
            assert(calls_are(hooks.calls(), calls0.len() as int, split, false));
            assert(calls_are(hooks.calls(), split, hooks.calls().len() as int, true));
            assert(hooks.calls().subrange(0, calls0.len() as int) =~= calls1.subrange(0, calls0.len() as int)) by {
                assert forall|k: int| 0 <= k < calls0.len() implies hooks.calls().subrange(0, calls0.len() as int)[k]
                    == calls1.subrange(0, calls0.len() as int)[k] by {
                    assert(hooks.calls()[k] == hooks.calls().subrange(0, split)[k]);
                }
            }
            let skip = bits1.skip(bits0.len() as int);
            assert(hooks.bits_log() == bits1);
            let owed = owed_work(cells0, old(self).paint().deferred_bits(), false);
            assert forall|id: u64| changed_ids(skip).contains(id) implies cells0.dom().contains(id) by {
                let k = choose|k: int| 0 <= k < skip.len() && skip[k] == (id, true);
                assert(bits_ids(skip)[k] == id);
                assert(bits_ids(skip).to_set().contains(id));
                assert(owed.contains(id));
            }
            assert(owed_work(cells1, old(self).paint().deferred_repaint(), true) =~= owed_work(
                cells0,
                old(self).paint().deferred_repaint(),
                true,
            ) + changed_ids(skip));
        }
    }

    /// Folds in the compositing-bit marks made out of pass this frame, then recomputes the bits
    /// of every queued boundary rootmost-first, marking for repaint each one whose compositing
    /// need changed.
    pub fn flush_compositing_bits<H: PaintHooks>(&mut self, hooks: &mut H)
        requires
            old(self).wf(),
            !old(self).paint().flushing_bits(),
            !old(self).paint().flushing_repaint(),
        ensures
            final(self).wf(),
            final(self).paint().cells().dom() == old(self).paint().cells().dom(),
            final(self).paint().bits() =~= Seq::empty(),
            final(self).paint().deferred_bits() =~= Seq::empty(),
            final(self).paint().deferred_repaint() == old(self).paint().deferred_repaint(),
            !final(self).paint().flushing_bits(),
            !final(self).paint().flushing_repaint(),
            forall|id: u64| #[trigger]
                final(self).paint().cells().dom().contains(id) ==> !final(self).paint().cells()[id].bits_queued
                    && final(self).paint().cells()[id].paint_queued == (old(self).paint().cells()[id].paint_queued
                    || changed_ids(final(hooks).bits_log().skip(old(hooks).bits_log().len() as int)).contains(id)),
            final(self).layout() == old(self).layout(),
            final(self).phase() == old(self).phase(),
            final(hooks).repainted() == old(hooks).repainted(),
            final(hooks).bits_log() == old(hooks).bits_log() + final(hooks).bits_log().skip(
                old(hooks).bits_log().len() as int,
            ),
            bits_ids(final(hooks).bits_log().skip(old(hooks).bits_log().len() as int)).no_duplicates(),
            bits_ids(final(hooks).bits_log().skip(old(hooks).bits_log().len() as int)).to_set()
                == owed_work(old(self).paint().cells(), old(self).paint().deferred_bits(), false),
            final(hooks).calls().len() >= old(hooks).calls().len(),
            final(hooks).calls().subrange(0, old(hooks).calls().len() as int) == old(hooks).calls(),
            calls_are(final(hooks).calls(), old(hooks).calls().len() as int, final(hooks).calls().len() as int, false),
    {
        let guard = self.enter_phase(FramePhase::CompositingBits);
        let ghost log0 = hooks.bits_log();
        let ordered = self.paint.begin_channel(false);
        let ghost cells1 = self.paint.cells();
        let ghost mut done: Seq<(u64, bool)> = Seq::empty();
        let ghost ids = ordered@.map_values(|s: PaintScope| s.id());
        let ghost dom0 = self.paint.cells().dom();
        assert(ids.subrange(0, ids.len() as int) =~= ids);
        assert(bits_ids(done) =~= Seq::<u64>::empty());
        assert(ids.take(0) =~= Seq::<u64>::empty());
        assert(log0 + done =~= log0);
        let mut i: usize = 0;
        while i < ordered.len()
            invariant
                self.wf(),
                i <= ordered.len(),
                ids == ordered@.map_values(|s: PaintScope| s.id()),
                self.paint.cells().dom() == dom0,
                dom0 == old(self).paint().cells().dom(),
                cells1.dom() == dom0,
                self.paint.flushing_bits(),
                !self.paint.flushing_repaint(),
                self.paint.deferred_bits() =~= Seq::<u64>::empty(),
                self.paint.deferred_repaint() == old(self).paint().deferred_repaint(),
                self.layout == old(self).layout(),
                self.phase() == FramePhase::CompositingBits,
                guard.restores() == old(self).phase(),
                forall|id: u64| #[trigger]
                    self.paint.cells().dom().contains(id) && self.paint.cells()[id].bits_queued
                        ==> ids.subrange(i as int, ids.len() as int).contains(id),
                forall|x: u64| #[trigger]
                    cells1.dom().contains(x) ==> cells1[x].paint_queued == old(self).paint().cells()[x].paint_queued,
                hooks.repainted() == old(hooks).repainted(),
                log0 == old(hooks).bits_log(),
                hooks.bits_log() == log0 + done,
                bits_ids(done).no_duplicates(),
                forall|x: u64|
                    #![trigger bits_ids(done).contains(x)]
                    #![trigger cells1[x]]
                    bits_ids(done).contains(x) <==> (ids.take(i as int).contains(x) && dom0.contains(x)
                        && cells1[x].bits_queued),
                forall|x: u64| #[trigger]
                    self.paint.cells().dom().contains(x) ==> self.paint.cells()[x].bits_queued == (
                    cells1[x].bits_queued && !ids.take(i as int).contains(x)),
                forall|x: u64| #[trigger]
                    self.paint.cells().dom().contains(x) ==> self.paint.cells()[x].paint_queued == (
                    cells1[x].paint_queued || changed_ids(done).contains(x)),
                hooks.calls().len() >= old(hooks).calls().len(),
                hooks.calls().subrange(0, old(hooks).calls().len() as int) == old(hooks).calls(),
                calls_are(hooks.calls(), old(hooks).calls().len() as int, hooks.calls().len() as int, false),
            decreases ordered.len() - i,
        {
            let scope = ordered[i];
            let ghost before = self.paint.cells();
            let ghost x0 = ids[i as int];
            let ghost done0 = done;
            assert(before.dom() == dom0);
            proof {
                assert(scope.id() == x0);
                lemma_take_push_contains(ids, i as int);
            }
            let present = self.paint.take(scope, false);
            assert(!present ==> !dom0.contains(x0) || !before[x0].bits_queued);
            assert(present ==> dom0.contains(x0) && before[x0].bits_queued);
            if present {
                let changed = hooks.update_compositing_bits(scope);
                if changed {
                    self.mark_needs_paint(scope);
                }
                proof {
                    assert(!bits_ids(done).contains(x0));
                    assert(bits_ids(done.push((x0, changed))) =~= bits_ids(done).push(x0));
                    assert forall|a: int, b: int|
                        0 <= a < bits_ids(done).push(x0).len() && 0 <= b < bits_ids(done).push(x0).len()
                            && a != b implies bits_ids(done).push(x0)[a] != bits_ids(done).push(x0)[b] by {
                        if a == done.len() {
                            assert(bits_ids(done).contains(bits_ids(done).push(x0)[b]));
                        }
                        if b == done.len() {
                            assert(bits_ids(done).contains(bits_ids(done).push(x0)[a]));
                        }
                    }
                    lemma_contains_push(bits_ids(done), x0);
                    lemma_contains_push(done, (x0, changed));
                    assert(log0 + done.push((x0, changed)) =~= (log0 + done).push((x0, changed)));
                    assert(bits_ids(done).push(x0).no_duplicates());
                    done = done.push((x0, changed));
                    assert(bits_ids(done) =~= bits_ids(done0).push(x0));
                }
            }
            proof {
                assert forall|x: u64|
                    #![trigger bits_ids(done).contains(x)]
                    #![trigger cells1[x]]
                    bits_ids(done).contains(x) <==> (ids.take(i + 1 as int).contains(x) && dom0.contains(x)
                        && cells1[x].bits_queued) by {
                    if x == x0 && !present && dom0.contains(x) && cells1[x].bits_queued {
                        assert(before.dom().contains(x));
                        assert(!before[x].bits_queued);
                        assert(ids.take(i as int).contains(x));
                        assert(bits_ids(done0).contains(x));
                    }
                    if present {
                        assert(bits_ids(done) == bits_ids(done0).push(x0));
                        lemma_contains_push(bits_ids(done0), x0);
                        if x == x0 {
                            assert(cells1[x0].bits_queued);
                            assert(ids.take(i + 1 as int).contains(x0));
                        }
                    } else {
                        assert(done == done0);
                    }
                    if x != x0 {
                        assert(ids.take(i + 1 as int).contains(x) == ids.take(i as int).contains(x));
                        assert(bits_ids(done).contains(x) == bits_ids(done0).contains(x));
                        assert(bits_ids(done0).contains(x) <==> (ids.take(i as int).contains(x)
                            && dom0.contains(x) && cells1[x].bits_queued));
                    }
                }
                assert forall|x: u64| #[trigger]
                    self.paint.cells().dom().contains(x) implies self.paint.cells()[x].paint_queued == (
                    cells1[x].paint_queued || changed_ids(done).contains(x)) by {
                    if x != x0 {
                        assert(changed_ids(done).contains(x) == changed_ids(done0).contains(x));
                    }
                }
                assert forall|id: u64| #[trigger]
                    self.paint.cells().dom().contains(id) && self.paint.cells()[id].bits_queued
                        implies ids.subrange(i + 1 as int, ids.len() as int).contains(id) by {
                    assert(before.dom().contains(id) && before[id].bits_queued);
                    let tail = ids.subrange(i as int, ids.len() as int);
                    let k = choose|k: int| 0 <= k < tail.len() && tail[k] == id;
                    assert(ids[i as int] == scope.id());
                    assert(k != 0);
                    assert(ids.subrange(i + 1 as int, ids.len() as int)[k - 1] == id);
                }
            }
            i = i + 1;
        }
        proof {
            assert forall|id: u64| #[trigger] self.paint.cells().dom().contains(id) implies !self.paint.cells()[id].bits_queued by {
                if self.paint.cells()[id].bits_queued {
                    assert(ids.subrange(i as int, ids.len() as int).len() == 0);
                }
            }
            assert(ids.take(i as int) =~= ids);
            assert(hooks.bits_log().skip(log0.len() as int) =~= done);
            let owed = owed_work(old(self).paint().cells(), old(self).paint().deferred_bits(), false);
            assert forall|x: u64| bits_ids(done).to_set().contains(x) <==> owed.contains(x) by {
                if dom0.contains(x) && cells1[x].bits_queued {
                    assert(ids.to_set().contains(x));
                }
            }
            assert(bits_ids(done).to_set() =~= owed);
        }
        self.paint.end_channel(false);
        self.exit_phase(guard);
    }

    /// Folds in the repaint marks made out of pass this frame, then repaints every queued
    /// boundary rootmost-first.
    pub fn flush_repaint<H: PaintHooks>(&mut self, hooks: &mut H)
        requires
            old(self).wf(),
            !old(self).paint().flushing_repaint(),
        ensures
            final(self).wf(),
            final(self).paint().cells().dom() == old(self).paint().cells().dom(),
            final(self).paint().repaint() =~= Seq::empty(),
            final(self).paint().deferred_repaint() =~= Seq::empty(),
            final(self).paint().bits() == old(self).paint().bits(),
            final(self).paint().deferred_bits() == old(self).paint().deferred_bits(),
            final(self).paint().flushing_bits() == old(self).paint().flushing_bits(),
            !final(self).paint().flushing_repaint(),
            forall|id: u64| #[trigger]
                final(self).paint().cells().dom().contains(id) ==> !final(self).paint().cells()[id].paint_queued
                    && final(self).paint().cells()[id].bits_queued == old(self).paint().cells()[id].bits_queued,
            final(self).layout() == old(self).layout(),
            final(self).phase() == old(self).phase(),
            final(hooks).bits_log() == old(hooks).bits_log(),
            final(hooks).repainted() == old(hooks).repainted() + final(hooks).repainted().skip(
                old(hooks).repainted().len() as int,
            ),
            final(hooks).repainted().skip(old(hooks).repainted().len() as int).no_duplicates(),
            final(hooks).repainted().skip(old(hooks).repainted().len() as int).to_set() == owed_work(
                old(self).paint().cells(),
                old(self).paint().deferred_repaint(),
                true,
            ),
            exists|order: Seq<DepthEntry>|
                order::rootmost_first(order) && order::entry_ids(order) == final(hooks).repainted().skip(
                    old(hooks).repainted().len() as int,
                ) && forall|k: int|
                    0 <= k < order.len() ==> #[trigger] self::paint::entry_from(
                        order[k],
                        old(self).paint().repaint(),
                        old(self).paint().cells(),
                        old(self).paint().deferred_repaint(),
                    ),
            final(hooks).calls().len() >= old(hooks).calls().len(),
            final(hooks).calls().subrange(0, old(hooks).calls().len() as int) == old(hooks).calls(),
            calls_are(final(hooks).calls(), old(hooks).calls().len() as int, final(hooks).calls().len() as int, true),
    {
        let guard = self.enter_phase(FramePhase::Paint);
        let ghost cells_before = self.paint.cells();
        let ghost log0 = hooks.repainted();
        let ghost paint0 = self.paint;
        let ordered = self.paint.begin_channel(true);
        let ghost cells1 = self.paint.cells();
        let ghost chan = self.paint.channel(true);
        let ghost mut done: Seq<u64> = Seq::empty();
        let ghost mut done_entries: Seq<DepthEntry> = Seq::empty();
        let ghost ids = ordered@.map_values(|s: PaintScope| s.id());
        let ghost dom0 = self.paint.cells().dom();
        assert(ids.subrange(0, ids.len() as int) =~= ids);
        let mut i: usize = 0;
        while i < ordered.len()
            invariant
                self.wf(),
                i <= ordered.len(),
                ids == ordered@.map_values(|s: PaintScope| s.id()),
                self.paint.cells().dom() == dom0,
                dom0 == old(self).paint().cells().dom(),
                self.paint.flushing_repaint(),
                self.paint.flushing_bits() == old(self).paint().flushing_bits(),
                self.paint.deferred_repaint() =~= Seq::<u64>::empty(),
                self.paint.bits() == old(self).paint().bits(),
                self.paint.deferred_bits() == old(self).paint().deferred_bits(),
                self.layout == old(self).layout(),
                guard.restores() == old(self).phase(),
                forall|id: u64| #[trigger]
                    self.paint.cells().dom().contains(id) ==> self.paint.cells()[id].bits_queued
                        == old(self).paint().cells()[id].bits_queued,
                forall|id: u64| #[trigger]
                    self.paint.cells().dom().contains(id) && self.paint.cells()[id].paint_queued
                        ==> ids.subrange(i as int, ids.len() as int).contains(id),
                cells1.dom() == dom0,
                hooks.bits_log() == old(hooks).bits_log(),
                log0 == old(hooks).repainted(),
                hooks.repainted() == log0 + done,
                done.no_duplicates(),
                forall|x: u64|
                    done.contains(x) <==> (ids.take(i as int).contains(x) && dom0.contains(x)
                        && cells1[x].paint_queued),
                forall|x: u64| #[trigger]
                    self.paint.cells().dom().contains(x) ==> self.paint.cells()[x].paint_queued == (
                    cells1[x].paint_queued && !ids.take(i as int).contains(x)),
                order::rootmost_first(chan),
                ids == order::entry_ids(chan),
                order::entry_ids(done_entries) == done,
                order::rootmost_first(done_entries),
                forall|a: int| #![trigger done_entries[a]] 0 <= a < done_entries.len() ==> exists|m: int| 0 <= m < i && #[trigger] chan[m] == done_entries[a],
                forall|k: int|
                    0 <= k < chan.len() ==> #[trigger] self::paint::entry_from(
                        chan[k],
                        old(self).paint().repaint(),
                        old(self).paint().cells(),
                        old(self).paint().deferred_repaint(),
                    ),
                hooks.calls().len() >= old(hooks).calls().len(),
                hooks.calls().subrange(0, old(hooks).calls().len() as int) == old(hooks).calls(),
                calls_are(hooks.calls(), old(hooks).calls().len() as int, hooks.calls().len() as int, true),
            decreases ordered.len() - i,
        {
            let scope = ordered[i];
            let ghost before = self.paint.cells();
            let ghost x0 = ids[i as int];
            proof {
                assert(scope.id() == x0);
                lemma_take_push_contains(ids, i as int);
            }
            let ghost done0 = done;
            let present = self.paint.take(scope, true);
            if present {
                hooks.repaint(scope);
                proof {
                    assert(!done.contains(x0));
                    assert forall|a: int, b: int|
                        0 <= a < done.push(x0).len() && 0 <= b < done.push(x0).len() && a != b
                        implies done.push(x0)[a] != done.push(x0)[b] by {
                        if a == done.len() {
                            assert(done.contains(done.push(x0)[b]));
                        }
                        if b == done.len() {
                            assert(done.contains(done.push(x0)[a]));
                        }
                    }
                    lemma_contains_push(done, x0);
                    let entry = chan[i as int];
                    assert forall|a: int, b: int| 0 <= a < b < done_entries.push(entry).len() implies order::entry_before(
                        #[trigger] done_entries.push(entry)[a],
                        #[trigger] done_entries.push(entry)[b],
                    ) by {
                        if b == done_entries.len() {
                            let m = choose|m: int| 0 <= m < i && #[trigger] chan[m] == done_entries[a];
                            assert(order::entry_before(chan[m], chan[i as int]));
                        } else {
                            assert(order::entry_before(done_entries[a], done_entries[b]));
                        }
                    }
                    assert forall|a: int| #![trigger done_entries.push(entry)[a]] 0 <= a < done_entries.push(entry).len() implies exists|m: int|
                        0 <= m < i + 1 && #[trigger] chan[m] == done_entries.push(entry)[a] by {
                        if a == done_entries.len() {
                            assert(chan[i as int] == done_entries.push(entry)[a]);
                        } else {
                            let m = choose|m: int| 0 <= m < i && #[trigger] chan[m] == done_entries[a];
                            assert(chan[m] == done_entries.push(entry)[a]);
                        }
                    }
                    assert(order::entry_ids(done_entries.push(entry)) =~= done.push(x0));
                    done_entries = done_entries.push(entry);
                    done = done.push(x0);
                }
            }
            proof {
                assert forall|x: u64|
                    done.contains(x) <==> (ids.take(i + 1 as int).contains(x) && dom0.contains(x)
                        && cells1[x].paint_queued) by {
                    if x == x0 && !present && dom0.contains(x) && cells1[x].paint_queued {
                        assert(before.dom().contains(x));
                        assert(!before[x].paint_queued);
                        assert(ids.take(i as int).contains(x));
                        assert(done0.contains(x));
                    }
                    if x != x0 {
                        assert(ids.take(i + 1 as int).contains(x) == ids.take(i as int).contains(x));
                        assert(done.contains(x) == done0.contains(x));
                    }
                }
                assert forall|id: u64| #[trigger]
                    self.paint.cells().dom().contains(id) && self.paint.cells()[id].paint_queued
                        implies ids.subrange(i + 1 as int, ids.len() as int).contains(id) by {
                    assert(before.dom().contains(id) && before[id].paint_queued);
                    let tail = ids.subrange(i as int, ids.len() as int);
                    let k = choose|k: int| 0 <= k < tail.len() && tail[k] == id;
                    assert(ids[i as int] == scope.id());
                    assert(k != 0);
                    assert(ids.subrange(i + 1 as int, ids.len() as int)[k - 1] == id);
                }
            }
            i = i + 1;
        }
        proof {
            assert forall|id: u64| #[trigger] self.paint.cells().dom().contains(id) implies !self.paint.cells()[id].paint_queued by {
                if self.paint.cells()[id].paint_queued {
                    assert(ids.subrange(i as int, ids.len() as int).len() == 0);
                }
            }
            assert(ids.take(i as int) =~= ids);
            assert(hooks.repainted().skip(log0.len() as int) =~= done);
            let owed = owed_work(old(self).paint().cells(), old(self).paint().deferred_repaint(), true);
            assert forall|x: u64| done.to_set().contains(x) <==> owed.contains(x) by {
                if dom0.contains(x) && cells1[x].paint_queued {
                    assert(ids.to_set().contains(x));
                }
            }
            assert(done.to_set() =~= owed);
            assert forall|k: int| 0 <= k < done_entries.len() implies #[trigger] self::paint::entry_from(
                done_entries[k],
                old(self).paint().repaint(),
                old(self).paint().cells(),
                old(self).paint().deferred_repaint(),
            ) by {
                let m = choose|m: int| 0 <= m < i && #[trigger] chan[m] == done_entries[k];
                assert(self::paint::entry_from(
                    chan[m],
                    old(self).paint().repaint(),
                    old(self).paint().cells(),
                    old(self).paint().deferred_repaint(),
                ));
            }
        }
        self.paint.end_channel(true);
        self.exit_phase(guard);
    }
}

/// An element is in a prefix one longer exactly when it is in the shorter prefix or is the
/// element added.
proof fn lemma_take_push_contains<A>(s: Seq<A>, i: int)
    requires
        0 <= i < s.len(),
    ensures
        forall|x: A| s.take(i + 1).contains(x) <==> (s.take(i).contains(x) || x == s[i]),
{
    assert(s.take(i + 1) =~= s.take(i).push(s[i]));
    lemma_contains_push(s.take(i), s[i]);
}

/// An element is in a sequence with one more element pushed exactly when it was in the
/// sequence or is the element pushed.
proof fn lemma_contains_push<A>(s: Seq<A>, y: A)
    ensures
        forall|x: A| s.push(y).contains(x) <==> (s.contains(x) || x == y),
{
    assert forall|x: A| s.push(y).contains(x) <==> (s.contains(x) || x == y) by {
        if s.push(y).contains(x) && x != y {
            let k = choose|k: int| 0 <= k < s.len() + 1 && #[trigger] s.push(y)[k] == x;
            assert(s[k] == x);
        }
        if s.contains(x) {
            let k = choose|k: int| 0 <= k < s.len() && #[trigger] s[k] == x;
            assert(s.push(y)[k] == x);
        }
        assert(s.push(y)[s.len() as int] == y);
    }
}

/// With nothing queued or marked out of pass, a frame owes no compositing-bits recompute and
/// no repaint: a composite mark alone repaints nothing.
pub proof fn lemma_clean_paint_owes_nothing(
    cells: Map<u64, BoundaryCell>,
    deferred_bits: Seq<u64>,
    deferred_repaint: Seq<u64>,
)
    requires
        forall|id: u64| #[trigger] cells.dom().contains(id) ==> !cells[id].bits_queued && !cells[id].paint_queued,
        deferred_bits.len() == 0,
        deferred_repaint.len() == 0,
    ensures
        owed_work(cells, deferred_bits, false) == Set::<u64>::empty(),
        owed_work(cells, deferred_repaint, true) == Set::<u64>::empty(),
{
    assert(owed_work(cells, deferred_bits, false) =~= Set::<u64>::empty());
    assert(owed_work(cells, deferred_repaint, true) =~= Set::<u64>::empty());
}

/// A registered boundary marked for repaint, however often, is owed one repaint by the next
/// flush: marking again changes nothing, and the flush repaints each owed boundary once.
pub proof fn lemma_marked_boundary_is_owed(
    cells: Map<u64, BoundaryCell>,
    repaint: Seq<DepthEntry>,
    deferred: Seq<u64>,
    id: u64,
)
    requires
        cells.dom().contains(id),
    ensures
        owed_work(enqueued_repaint(cells, repaint, id).0, deferred, true).contains(id),
        ({
            let (c, r) = enqueued_repaint(cells, repaint, id);
            enqueued_repaint(c, r, id) == (c, r)
        }),
{
    self::paint::lemma_enqueue_is_idempotent(cells, repaint, id);
}

/// A registered boundary whose compositing bits were marked out of pass has its bits
/// recomputed by the next flush, and is repainted by it exactly when the recompute reports a
/// change, where nothing else queued it for repaint.
pub proof fn lemma_deferred_bits_mark(
    cells: Map<u64, BoundaryCell>,
    deferred_bits: Seq<u64>,
    deferred_repaint: Seq<u64>,
    id: u64,
    bits: Seq<(u64, bool)>,
    repainted: Seq<u64>,
)
    requires
        cells.dom().contains(id),
        deferred_bits.contains(id),
        !cells[id].paint_queued,
        !deferred_repaint.contains(id),
        bits_ids(bits).to_set() == owed_work(cells, deferred_bits, false),
        repainted.to_set() == owed_work(cells, deferred_repaint, true) + changed_ids(bits),
    ensures
        bits_ids(bits).contains(id),
        repainted.contains(id) <==> changed_ids(bits).contains(id),
{
    assert(owed_work(cells, deferred_bits, false).contains(id));
    assert(bits_ids(bits).to_set().contains(id));
    assert(!owed_work(cells, deferred_repaint, true).contains(id));
    assert(repainted.contains(id) <==> repainted.to_set().contains(id));
}

} // verus!
