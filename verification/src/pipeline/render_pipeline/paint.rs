use vstd::prelude::*;

use crate::pipeline::order::{entry_ids, ids_of, rootmost_first, sort_rootmost_first, DepthEntry};
use crate::pipeline::paint::PaintScope;
use super::RenderPipeline;
use crate::pipeline::registry::{
    cells_wf, key_shaped, lemma_cells_wf_insert, lemma_cells_wf_remove, lemma_null_key_shaped,
    null_id, null_key_id, registry_capacity, registry_cells, BoundaryCell, BoundaryRegistry,
};

verus! {

/// The record of a freshly registered repaint boundary at `depth`: queued on neither channel.
pub open spec fn fresh_repaint_cell(depth: usize) -> BoundaryCell {
    BoundaryCell {
        depth,
        paint: null_key_id(),
        constrained: false,
        needs_layout: false,
        layout_linked: false,
        paint_queued: false,
        bits_queued: false,
        capacity_commands: 0,
        capacity_brushes: 0,
        capacity_strokes: 0,
    }
}

/// The depth a boundary registered under `enclosing` takes: one below the enclosing boundary,
/// or the root depth when that boundary is not registered.
pub open spec fn depth_under(cells: Map<u64, BoundaryCell>, enclosing: u64) -> int {
    if cells.dom().contains(enclosing) {
        cells[enclosing].depth + 1
    } else {
        0
    }
}

/// The compositing-bits channel, the repaint channel and the cells once `id` is queued on the
/// compositing-bits channel: a registered boundary not yet queued joins it at its depth.
pub open spec fn enqueued_bits(
    cells: Map<u64, BoundaryCell>,
    bits: Seq<DepthEntry>,
    id: u64,
) -> (Map<u64, BoundaryCell>, Seq<DepthEntry>) {
    if cells.dom().contains(id) && !cells[id].bits_queued {
        (cells.insert(id, BoundaryCell { bits_queued: true, ..cells[id] }), bits.push((cells[id].depth, id)))
    } else {
        (cells, bits)
    }
}

/// The cells and repaint channel once `id` is queued for repaint.
pub open spec fn enqueued_repaint(
    cells: Map<u64, BoundaryCell>,
    repaint: Seq<DepthEntry>,
    id: u64,
) -> (Map<u64, BoundaryCell>, Seq<DepthEntry>) {
    if cells.dom().contains(id) && !cells[id].paint_queued {
        (cells.insert(id, BoundaryCell { paint_queued: true, ..cells[id] }), repaint.push((cells[id].depth, id)))
    } else {
        (cells, repaint)
    }
}

/// Queueing a boundary on either channel a second time before the pass changes nothing more
/// than the first time did.
pub proof fn lemma_enqueue_is_idempotent(
    cells: Map<u64, BoundaryCell>,
    channel: Seq<DepthEntry>,
    id: u64,
)
    ensures
        ({
            let (c, b) = enqueued_bits(cells, channel, id);
            enqueued_bits(c, b, id) == (c, b)
        }),
        ({
            let (c, r) = enqueued_repaint(cells, channel, id);
            enqueued_repaint(c, r, id) == (c, r)
        }),
{
}

/// Whether the entry `entry` was on the channel `channel` already, or joined it from the
/// out-of-pass marks `deferred` at the depth its boundary is registered at in `cells`.
pub open spec fn entry_from(
    entry: DepthEntry,
    channel: Seq<DepthEntry>,
    cells: Map<u64, BoundaryCell>,
    deferred: Seq<u64>,
) -> bool {
    channel.contains(entry) || (cells.dom().contains(entry.1) && entry.0 == cells[entry.1].depth
        && deferred.contains(entry.1))
}

/// Queueing `id` on a channel adds it, when registered in `dom`, to the ids the channel holds,
/// and nothing else.
pub(crate) proof fn lemma_channel_step(
    before: Seq<DepthEntry>,
    after: Seq<DepthEntry>,
    start: Seq<DepthEntry>,
    taken: Seq<u64>,
    id: u64,
    dom: Set<u64>,
)
    requires
        entry_ids(before).to_set() == entry_ids(start).to_set().union(taken.to_set().intersect(dom)),
        (after == before && (dom.contains(id) ==> entry_ids(before).contains(id))) || (after.len()
            == before.len() + 1 && after.drop_last() == before && after.last().1 == id
            && dom.contains(id)),
    ensures
        entry_ids(after).to_set() == entry_ids(start).to_set().union(
            taken.push(id).to_set().intersect(dom),
        ),
{
    taken.lemma_push_to_set_commute(id);
    if after != before {
        assert(after =~= before.push(after.last()));
        assert(entry_ids(after) =~= entry_ids(before).push(id));
        entry_ids(before).lemma_push_to_set_commute(id);
    }
    assert(entry_ids(after).to_set() =~= entry_ids(start).to_set().union(
        taken.push(id).to_set().intersect(dom),
    ));
}

/// The sole owner of a registered repaint boundary, held by the render object that
/// established it. Handing it to [`PaintState::unregister`] unregisters the boundary.
pub struct PaintBoundaryHandle {
    id: u64,
}

impl PaintBoundaryHandle {
    #[verifier::type_invariant]
    spec fn shaped(self) -> bool {
        key_shaped(self.id)
    }

    /// The boundary this handle owns.
    pub closed spec fn id(self) -> u64 {
        self.id
    }

    /// A mark-only handle to this boundary, for descendants to repaint into it.
    pub fn scope(&self) -> (scope: PaintScope)
        ensures
            scope.id() == self.id(),
    {
        proof {
            use_type_invariant(self);
        }
        PaintScope::from_id(self.id)
    }

    /// Marks this boundary's compositing bits for recomputation before its next repaint, as
    /// [`RenderPipeline::mark_needs_compositing_bits_update`] does for its scope.
    pub fn mark_needs_compositing_bits_update(&self, pipeline: &mut RenderPipeline)
        requires
            old(pipeline).wf(),
            old(pipeline).phase().runs_no_later_than(
                crate::pipeline::phase::FramePhase::CompositingBits,
            ),
            old(pipeline).paint().cells().dom().contains(self.id()) && !old(
                pipeline,
            ).paint().cells()[self.id()].bits_queued ==> !old(pipeline).paint().flushing_bits(),
        ensures
            final(pipeline).wf(),
            (final(pipeline).paint().cells(), final(pipeline).paint().bits()) == enqueued_bits(
                old(pipeline).paint().cells(),
                old(pipeline).paint().bits(),
                self.id(),
            ),
            final(pipeline).paint().repaint() == old(pipeline).paint().repaint(),
            final(pipeline).layout() == old(pipeline).layout(),
            final(pipeline).phase() == old(pipeline).phase(),
            final(pipeline).frame_requested(),
    {
        pipeline.mark_needs_compositing_bits_update(self.scope());
    }

    /// Records the repaint boundary now enclosing this one, refreshing the depth the flush
    /// drains it at, as [`PaintState::set_enclosing`] does.
    pub fn set_enclosing(&self, pipeline: &mut RenderPipeline, enclosing: PaintScope)
        requires
            old(pipeline).wf(),
            old(pipeline).paint().cells().dom().contains(enclosing.id()) ==> old(
                pipeline,
            ).paint().cells()[enclosing.id()].depth < usize::MAX,
        ensures
            final(pipeline).wf(),
            final(pipeline).paint().cells() == (if old(pipeline).paint().cells().dom().contains(
                self.id(),
            ) {
                old(pipeline).paint().cells().insert(
                    self.id(),
                    BoundaryCell {
                        depth: depth_under(old(pipeline).paint().cells(), enclosing.id()) as usize,
                        ..old(pipeline).paint().cells()[self.id()]
                    },
                )
            } else {
                old(pipeline).paint().cells()
            }),
            final(pipeline).paint().bits() == old(pipeline).paint().bits(),
            final(pipeline).paint().repaint() == old(pipeline).paint().repaint(),
            final(pipeline).layout() == old(pipeline).layout(),
            final(pipeline).phase() == old(pipeline).phase(),
            final(pipeline).frame_requested() == old(pipeline).frame_requested(),
    {
        pipeline.paint.set_enclosing(self, enclosing);
    }

    /// Marks this boundary to be repainted on the next frame, as
    /// [`RenderPipeline::mark_needs_paint`] does for its scope.
    pub fn mark_needs_paint(&self, pipeline: &mut RenderPipeline)
        requires
            old(pipeline).wf(),
            old(pipeline).phase().runs_no_later_than(crate::pipeline::phase::FramePhase::Paint),
            old(pipeline).paint().cells().dom().contains(self.id()) && !old(
                pipeline,
            ).paint().cells()[self.id()].paint_queued ==> !old(pipeline).paint().flushing_repaint(),
        ensures
            final(pipeline).wf(),
            (final(pipeline).paint().cells(), final(pipeline).paint().repaint())
                == enqueued_repaint(
                old(pipeline).paint().cells(),
                old(pipeline).paint().repaint(),
                self.id(),
            ),
            final(pipeline).paint().bits() == old(pipeline).paint().bits(),
            final(pipeline).layout() == old(pipeline).layout(),
            final(pipeline).phase() == old(pipeline).phase(),
            final(pipeline).frame_requested(),
    {
        pipeline.mark_needs_paint(self.scope());
    }

    /// Schedules a recomposite of the subtree on the next frame, without repainting this
    /// boundary.
    pub fn mark_needs_composite(&self, pipeline: &mut RenderPipeline)
        requires
            old(pipeline).phase().runs_no_later_than(
                crate::pipeline::phase::FramePhase::Composite,
            ),
        ensures
            final(pipeline).layout() == old(pipeline).layout(),
            final(pipeline).paint() == old(pipeline).paint(),
            final(pipeline).phase() == old(pipeline).phase(),
            final(pipeline).frame_requested(),
    {
        pipeline.mark_needs_composite();
    }
}

/// A [`PaintScope`] paired with the route to mark it from outside a pipeline pass, such as a
/// per-frame animation callback. Each request is applied on the pipeline's next paint flush; a
/// detached marker marks nothing, and one whose boundary is gone is skipped.
#[derive(Clone, Copy)]
pub struct DeferredPaintScope {
    id: u64,
    attached: bool,
}

impl DeferredPaintScope {
    #[verifier::type_invariant]
    spec fn shaped(self) -> bool {
        key_shaped(self.id)
    }

    /// The boundary this marker names.
    pub closed spec fn id(self) -> u64 {
        self.id
    }

    /// Whether this marker was handed out by a pipeline, so its marks reach one.
    pub closed spec fn attached(self) -> bool {
        self.attached
    }

    /// A marker detached from any pipeline, whose marks reach nothing.
    pub fn detached() -> (marker: DeferredPaintScope)
        ensures
            marker.id() == null_key_id(),
            !marker.attached(),
    {
        let id = null_id();
        proof {
            lemma_null_key_shaped();
        }
        DeferredPaintScope { id, attached: false }
    }

    /// Queues this boundary to be repainted on the pipeline's next frame.
    pub fn mark_needs_paint(&self, pipeline: &mut RenderPipeline)
        requires
            old(pipeline).wf(),
        ensures
            final(pipeline).wf(),
            final(pipeline).paint().cells() == old(pipeline).paint().cells(),
            final(pipeline).paint().bits() == old(pipeline).paint().bits(),
            final(pipeline).paint().repaint() == old(pipeline).paint().repaint(),
            final(pipeline).paint().deferred_bits() == old(pipeline).paint().deferred_bits(),
            final(pipeline).paint().deferred_repaint() == (if self.attached() {
                old(pipeline).paint().deferred_repaint().push(self.id())
            } else {
                old(pipeline).paint().deferred_repaint()
            }),
            final(pipeline).paint().flushing_bits() == old(pipeline).paint().flushing_bits(),
            final(pipeline).paint().flushing_repaint() == old(pipeline).paint().flushing_repaint(),
            final(pipeline).layout() == old(pipeline).layout(),
            final(pipeline).phase() == old(pipeline).phase(),
            final(pipeline).frame_requested() == old(pipeline).frame_requested(),
    {
        proof {
            use_type_invariant(self);
        }
        if self.attached {
            pipeline.paint.deferred_repaint.push(self.id);
        }
    }

    /// Queues this boundary's compositing bits to be recomputed on the pipeline's next frame;
    /// the boundary repaints when the recomputation finds its compositing need changed.
    pub fn mark_needs_compositing_bits_update(&self, pipeline: &mut RenderPipeline)
        requires
            old(pipeline).wf(),
        ensures
            final(pipeline).wf(),
            final(pipeline).paint().cells() == old(pipeline).paint().cells(),
            final(pipeline).paint().bits() == old(pipeline).paint().bits(),
            final(pipeline).paint().repaint() == old(pipeline).paint().repaint(),
            final(pipeline).paint().deferred_bits() == (if self.attached() {
                old(pipeline).paint().deferred_bits().push(self.id())
            } else {
                old(pipeline).paint().deferred_bits()
            }),
            final(pipeline).paint().deferred_repaint() == old(pipeline).paint().deferred_repaint(),
            final(pipeline).paint().flushing_bits() == old(pipeline).paint().flushing_bits(),
            final(pipeline).paint().flushing_repaint() == old(pipeline).paint().flushing_repaint(),
            final(pipeline).layout() == old(pipeline).layout(),
            final(pipeline).phase() == old(pipeline).phase(),
            final(pipeline).frame_requested() == old(pipeline).frame_requested(),
    {
        proof {
            use_type_invariant(self);
        }
        if self.attached {
            pipeline.paint.deferred_bits.push(self.id);
        }
    }

    /// A composite needs no boundary and is covered by the frame's unconditional recomposite,
    /// so it is queued nowhere.
    pub fn mark_needs_composite(&self) {
    }
}

/// The repaint boundaries of one tree and their pending compositing-bit and repaint work, in
/// two channels since compositing bits settle before paint. Each channel entry carries the
/// depth captured at mark, so a flush sorts rootmost-first with no registry lookups; a
/// boundary's queued flag keeps it entered once.
pub struct PaintState {
    registry: BoundaryRegistry,
    bits: Vec<DepthEntry>,
    repaint: Vec<DepthEntry>,
    deferred_bits: Vec<u64>,
    deferred_repaint: Vec<u64>,
    flushing_bits: bool,
    flushing_repaint: bool,
}

impl PaintState {
    /// The registered boundaries, by key.
    pub closed spec fn cells(&self) -> Map<u64, BoundaryCell> {
        registry_cells(self.registry)
    }

    /// The compositing-bits channel, in the order it was filled.
    pub closed spec fn bits(&self) -> Seq<DepthEntry> {
        self.bits@
    }

    /// The repaint channel, in the order it was filled.
    pub closed spec fn repaint(&self) -> Seq<DepthEntry> {
        self.repaint@
    }

    /// The repaint channel where `repaint`, else the compositing-bits one.
    pub open spec fn channel(&self, repaint: bool) -> Seq<DepthEntry> {
        if repaint {
            self.repaint()
        } else {
            self.bits()
        }
    }

    /// The out-of-pass marks of the repaint channel where `repaint`, else of the
    /// compositing-bits one.
    pub open spec fn deferred_of(&self, repaint: bool) -> Seq<u64> {
        if repaint {
            self.deferred_repaint()
        } else {
            self.deferred_bits()
        }
    }

    /// The compositing-bits marks made out of a pipeline pass.
    pub closed spec fn deferred_bits(&self) -> Seq<u64> {
        self.deferred_bits@
    }

    /// The repaint marks made out of a pipeline pass.
    pub closed spec fn deferred_repaint(&self) -> Seq<u64> {
        self.deferred_repaint@
    }

    /// Whether a flush holds the compositing-bits channel.
    pub closed spec fn flushing_bits(&self) -> bool {
        self.flushing_bits
    }

    /// Whether a flush holds the repaint channel.
    pub closed spec fn flushing_repaint(&self) -> bool {
        self.flushing_repaint
    }

    /// Whether a flush holds the channel named by `repaint`.
    pub open spec fn flushing(&self, repaint: bool) -> bool {
        if repaint {
            self.flushing_repaint()
        } else {
            self.flushing_bits()
        }
    }

    /// Every recorded key has the shape of a slot map key, and a boundary flagged as queued
    /// sits in that channel.
    pub closed spec fn wf(&self) -> bool {
        &&& cells_wf(self.cells())
        &&& forall|i: int| 0 <= i < self.bits@.len() ==> key_shaped(#[trigger] self.bits@[i].1)
        &&& forall|i: int| 0 <= i < self.repaint@.len() ==> key_shaped(#[trigger] self.repaint@[i].1)
        &&& forall|i: int| 0 <= i < self.deferred_bits@.len() ==> key_shaped(#[trigger] self.deferred_bits@[i])
        &&& forall|i: int|
            0 <= i < self.deferred_repaint@.len() ==> key_shaped(#[trigger] self.deferred_repaint@[i])
        &&& forall|id: u64| #[trigger]
            self.cells().dom().contains(id) && self.cells()[id].bits_queued ==> entry_ids(
                self.bits@,
            ).contains(id)
        &&& forall|id: u64| #[trigger]
            self.cells().dom().contains(id) && self.cells()[id].paint_queued ==> entry_ids(
                self.repaint@,
            ).contains(id)
    }

    /// A state with nothing registered or queued.
    pub fn new() -> (state: PaintState)
        ensures
            state.wf(),
            state.cells() =~= Map::empty(),
            state.bits() =~= Seq::empty(),
            state.repaint() =~= Seq::empty(),
            state.deferred_bits() =~= Seq::empty(),
            state.deferred_repaint() =~= Seq::empty(),
            !state.flushing_bits(),
            !state.flushing_repaint(),
    {
        PaintState {
            registry: BoundaryRegistry::new(),
            bits: Vec::new(),
            repaint: Vec::new(),
            deferred_bits: Vec::new(),
            deferred_repaint: Vec::new(),
            flushing_bits: false,
            flushing_repaint: false,
        }
    }

    /// Whether repaint work is pending: a boundary's bits or repaint marked, in a channel or
    /// still deferred.
    pub fn has_pending(&self) -> (r: bool)
        ensures
            r == (self.bits().len() > 0 || self.repaint().len() > 0 || self.deferred_bits().len() > 0
                || self.deferred_repaint().len() > 0),
    {
        self.bits.len() > 0 || self.repaint.len() > 0 || self.deferred_bits.len() > 0
            || self.deferred_repaint.len() > 0
    }

    /// Registers a repaint boundary nested under `enclosing`, returning the handle that owns
    /// and unregisters it. The new boundary is left unmarked: the caller either marks it or
    /// paints it in the same pass it registers in.
    pub fn register(&mut self, enclosing: PaintScope) -> (handle: PaintBoundaryHandle)
        requires
            old(self).wf(),
            old(self).cells().dom().len() < registry_capacity(),
            old(self).cells().dom().contains(enclosing.id()) ==> old(self).cells()[enclosing.id()].depth
                < usize::MAX,
        ensures
            final(self).wf(),
            !old(self).cells().dom().contains(handle.id()),
            handle.id() != null_key_id(),
            final(self).cells() == old(self).cells().insert(
                handle.id(),
                fresh_repaint_cell(depth_under(old(self).cells(), enclosing.id()) as usize),
            ),
            final(self).bits() == old(self).bits(),
            final(self).repaint() == old(self).repaint(),
            final(self).deferred_bits() == old(self).deferred_bits(),
            final(self).deferred_repaint() == old(self).deferred_repaint(),
            final(self).flushing_bits() == old(self).flushing_bits(),
            final(self).flushing_repaint() == old(self).flushing_repaint(),
    {
        let enclosing_id = enclosing.raw();
        let depth = match self.registry.get(enclosing_id) {
            Some(cell) => cell.depth + 1,
            None => 0,
        };
        let null = null_id();
        let cell = BoundaryCell {
            depth,
            paint: null,
            constrained: false,
            needs_layout: false,
            layout_linked: false,
            paint_queued: false,
            bits_queued: false,
            capacity_commands: 0,
            capacity_brushes: 0,
            capacity_strokes: 0,
        };
        let ghost before = self.cells();
        let id = self.registry.insert(cell);
        proof {
            lemma_cells_wf_insert(before, id, cell);
        }
        PaintBoundaryHandle { id }
    }

    /// A deferred handle to `scope`'s repaint boundary.
    pub fn deferred_scope(&self, scope: PaintScope) -> (marker: DeferredPaintScope)
        ensures
            marker.id() == scope.id(),
            marker.attached(),
    {
        let id = scope.raw();
        DeferredPaintScope { id, attached: true }
    }

    /// Queues `scope` for a compositing-bit recompute at its depth. A boundary already queued
    /// or already gone is left alone. Queueing a registered, unqueued boundary while a flush
    /// holds the channels is a caller error, ruled out by `requires`.
    pub fn enqueue_bits(&mut self, scope: PaintScope)
        requires
            old(self).wf(),
            old(self).cells().dom().contains(scope.id()) && !old(self).cells()[scope.id()].bits_queued
                ==> !old(self).flushing_bits(),
        ensures
            final(self).wf(),
            (final(self).cells(), final(self).bits()) == enqueued_bits(
                old(self).cells(),
                old(self).bits(),
                scope.id(),
            ),
            final(self).repaint() == old(self).repaint(),
            final(self).deferred_bits() == old(self).deferred_bits(),
            final(self).deferred_repaint() == old(self).deferred_repaint(),
            final(self).flushing_bits() == old(self).flushing_bits(),
            final(self).flushing_repaint() == old(self).flushing_repaint(),
    {
        let id = scope.raw();
        let ghost before = self.cells();
        let cell = match self.registry.get(id) {
            Some(cell) => cell,
            None => {
                return;
            },
        };
        if cell.bits_queued {
            return;
        }
        let updated = BoundaryCell { bits_queued: true, ..cell };
        self.registry.set(id, updated);
        self.bits.push((cell.depth, id));
        proof {
            lemma_cells_wf_insert(before, id, updated);
            assert(entry_ids(self.bits@) =~= entry_ids(old(self).bits@).push(id));
            assert forall|i: int| 0 <= i < self.bits@.len() implies key_shaped(#[trigger] self.bits@[i].1) by {
                if i < old(self).bits@.len() {
                    assert(old(self).bits@[i] == self.bits@[i]);
                }
            }
            assert forall|x: u64| #[trigger]
                self.cells().dom().contains(x) && self.cells()[x].bits_queued implies entry_ids(
                self.bits@,
            ).contains(x) by {
                if x == id {
                    assert(entry_ids(self.bits@)[self.bits@.len() - 1] == x);
                } else {
                    let k = choose|k: int| 0 <= k < entry_ids(old(self).bits@).len() && entry_ids(old(self).bits@)[k] == x;
                    assert(entry_ids(self.bits@)[k] == x);
                }
            }
        }
    }

    /// Queues `scope` for a repaint at its depth. A boundary already queued or already gone is
    /// left alone. Queueing a registered, unqueued boundary while a flush holds the channels is
    /// a caller error, ruled out by `requires`.
    pub fn enqueue_repaint(&mut self, scope: PaintScope)
        requires
            old(self).wf(),
            old(self).cells().dom().contains(scope.id()) && !old(self).cells()[scope.id()].paint_queued
                ==> !old(self).flushing_repaint(),
        ensures
            final(self).wf(),
            (final(self).cells(), final(self).repaint()) == enqueued_repaint(
                old(self).cells(),
                old(self).repaint(),
                scope.id(),
            ),
            final(self).bits() == old(self).bits(),
            final(self).deferred_bits() == old(self).deferred_bits(),
            final(self).deferred_repaint() == old(self).deferred_repaint(),
            final(self).flushing_bits() == old(self).flushing_bits(),
            final(self).flushing_repaint() == old(self).flushing_repaint(),
    {
        let id = scope.raw();
        let ghost before = self.cells();
        let cell = match self.registry.get(id) {
            Some(cell) => cell,
            None => {
                return;
            },
        };
        if cell.paint_queued {
            return;
        }
        let updated = BoundaryCell { paint_queued: true, ..cell };
        self.registry.set(id, updated);
        self.repaint.push((cell.depth, id));
        proof {
            lemma_cells_wf_insert(before, id, updated);
            assert(entry_ids(self.repaint@) =~= entry_ids(old(self).repaint@).push(id));
            assert forall|i: int| 0 <= i < self.repaint@.len() implies key_shaped(#[trigger] self.repaint@[i].1) by {
                if i < old(self).repaint@.len() {
                    assert(old(self).repaint@[i] == self.repaint@[i]);
                }
            }
            assert forall|x: u64| #[trigger]
                self.cells().dom().contains(x) && self.cells()[x].paint_queued implies entry_ids(
                self.repaint@,
            ).contains(x) by {
                if x == id {
                    assert(entry_ids(self.repaint@)[self.repaint@.len() - 1] == x);
                } else {
                    let k = choose|k: int| 0 <= k < entry_ids(old(self).repaint@).len() && entry_ids(old(self).repaint@)[k] == x;
                    assert(entry_ids(self.repaint@)[k] == x);
                }
            }
        }
    }

    /// Refreshes the depth `handle`'s boundary drains at from the boundary now enclosing it,
    /// so a boundary whose nesting changed drains at its current depth.
    pub fn set_enclosing(&mut self, handle: &PaintBoundaryHandle, enclosing: PaintScope)
        requires
            old(self).wf(),
            old(self).cells().dom().contains(enclosing.id()) ==> old(self).cells()[enclosing.id()].depth
                < usize::MAX,
        ensures
            final(self).wf(),
            final(self).cells() == (if old(self).cells().dom().contains(handle.id()) {
                old(self).cells().insert(
                    handle.id(),
                    BoundaryCell {
                        depth: depth_under(old(self).cells(), enclosing.id()) as usize,
                        ..old(self).cells()[handle.id()]
                    },
                )
            } else {
                old(self).cells()
            }),
            final(self).bits() == old(self).bits(),
            final(self).repaint() == old(self).repaint(),
            final(self).deferred_bits() == old(self).deferred_bits(),
            final(self).deferred_repaint() == old(self).deferred_repaint(),
            final(self).flushing_bits() == old(self).flushing_bits(),
            final(self).flushing_repaint() == old(self).flushing_repaint(),
    {
        proof {
            use_type_invariant(handle);
        }
        let enclosing_id = enclosing.raw();
        let depth = match self.registry.get(enclosing_id) {
            Some(cell) => cell.depth + 1,
            None => 0,
        };
        let ghost before = self.cells();
        if let Some(cell) = self.registry.get(handle.id) {
            let updated = BoundaryCell { depth, ..cell };
            self.registry.set(handle.id, updated);
            proof {
                lemma_cells_wf_insert(before, handle.id, updated);
            }
        }
    }

    /// Unregisters the boundary `handle` owns. An entry of it left in a channel is skipped
    /// once the flush finds no boundary.
    pub fn unregister(&mut self, handle: PaintBoundaryHandle)
        requires
            old(self).wf(),
        ensures
            final(self).wf(),
            final(self).cells() == old(self).cells().remove(handle.id()),
            final(self).bits() == old(self).bits(),
            final(self).repaint() == old(self).repaint(),
            final(self).deferred_bits() == old(self).deferred_bits(),
            final(self).deferred_repaint() == old(self).deferred_repaint(),
            final(self).flushing_bits() == old(self).flushing_bits(),
            final(self).flushing_repaint() == old(self).flushing_repaint(),
    {
        proof {
            use_type_invariant(&handle);
        }
        let ghost before = self.cells();
        self.registry.remove(handle.id);
        proof {
            lemma_cells_wf_remove(before, handle.id);
        }
    }

    /// Folds the deferred marks of one channel into it (`repaint`, or the compositing-bits
    /// channel), sorts the channel rootmost-first, ties broken by id, and holds it for a flush.
    /// Returns the boundaries to enter, in that order.
    pub fn begin_channel(&mut self, repaint: bool) -> (ordered: Vec<PaintScope>)
        requires
            old(self).wf(),
            !old(self).flushing(repaint),
        ensures
            final(self).wf(),
            final(self).flushing(repaint),
            final(self).flushing(!repaint) == old(self).flushing(!repaint),
            repaint ==> final(self).deferred_repaint() =~= Seq::empty() && final(self).deferred_bits()
                == old(self).deferred_bits(),
            !repaint ==> final(self).deferred_bits() =~= Seq::empty() && final(self).deferred_repaint()
                == old(self).deferred_repaint(),
            final(self).cells().dom() == old(self).cells().dom(),
            repaint ==> final(self).bits() == old(self).bits(),
            !repaint ==> final(self).repaint() == old(self).repaint(),
            forall|id: u64| #[trigger]
                final(self).cells().dom().contains(id) ==> (repaint ==> final(self).cells()[id].bits_queued
                    == old(self).cells()[id].bits_queued) && (!repaint ==> final(self).cells()[id].paint_queued
                    == old(self).cells()[id].paint_queued),
            forall|id: u64| #[trigger]
                final(self).cells().dom().contains(id) && (if repaint {
                    final(self).cells()[id].paint_queued
                } else {
                    final(self).cells()[id].bits_queued
                }) ==> ordered@.map_values(|s: PaintScope| s.id()).contains(id),
            ({
                let channel = if repaint { final(self).repaint() } else { final(self).bits() };
                &&& rootmost_first(channel)
                &&& ordered@.map_values(|s: PaintScope| s.id()) == entry_ids(channel)
            }),
            forall|id: u64| #[trigger]
                final(self).cells().dom().contains(id) ==> (if repaint {
                    final(self).cells()[id].paint_queued == (old(self).cells()[id].paint_queued
                        || old(self).deferred_repaint().contains(id))
                } else {
                    final(self).cells()[id].bits_queued == (old(self).cells()[id].bits_queued
                        || old(self).deferred_bits().contains(id))
                }),
            ordered@.map_values(|s: PaintScope| s.id()).to_set() == (if repaint {
                entry_ids(old(self).repaint()).to_set().union(
                    old(self).deferred_repaint().to_set().intersect(old(self).cells().dom()),
                )
            } else {
                entry_ids(old(self).bits()).to_set().union(
                    old(self).deferred_bits().to_set().intersect(old(self).cells().dom()),
                )
            }),
            forall|k: int|
                0 <= k < final(self).channel(repaint).len() ==> entry_from(
                    #[trigger] final(self).channel(repaint)[k],
                    old(self).channel(repaint),
                    old(self).cells(),
                    old(self).deferred_of(repaint),
                ),
    {
        let mut queued: Vec<u64> = Vec::new();
        if repaint {
            std::mem::swap(&mut queued, &mut self.deferred_repaint);
        } else {
            std::mem::swap(&mut queued, &mut self.deferred_bits);
        }
        let ghost dom0 = self.cells().dom();
        let mut i: usize = 0;
        while i < queued.len()
            invariant
                self.wf(),
                self.flushing_bits == old(self).flushing_bits,
                self.flushing_repaint == old(self).flushing_repaint,
                !old(self).flushing(repaint),
                i <= queued.len(),
                forall|k: int| 0 <= k < queued@.len() ==> key_shaped(#[trigger] queued@[k]),
                self.cells().dom() == dom0,
                dom0 == old(self).cells().dom(),
                repaint ==> queued@ == old(self).deferred_repaint@ && self.deferred_repaint@ =~= Seq::<u64>::empty()
                    && self.deferred_bits@ == old(self).deferred_bits@,
                !repaint ==> queued@ == old(self).deferred_bits@ && self.deferred_bits@ =~= Seq::<u64>::empty()
                    && self.deferred_repaint@ == old(self).deferred_repaint@,
                repaint ==> self.bits@ == old(self).bits@,
                !repaint ==> self.repaint@ == old(self).repaint@,
                forall|id: u64| #[trigger]
                    self.cells().dom().contains(id) ==> (repaint ==> self.cells()[id].bits_queued
                        == old(self).cells()[id].bits_queued) && (!repaint ==> self.cells()[id].paint_queued
                        == old(self).cells()[id].paint_queued),
                forall|id: u64| #[trigger]
                    self.cells().dom().contains(id) ==> (if repaint {
                        self.cells()[id].paint_queued == (old(self).cells()[id].paint_queued
                            || queued@.take(i as int).contains(id))
                    } else {
                        self.cells()[id].bits_queued == (old(self).cells()[id].bits_queued
                            || queued@.take(i as int).contains(id))
                    }),
                entry_ids(if repaint { self.repaint@ } else { self.bits@ }).to_set() == entry_ids(
                    if repaint { old(self).repaint@ } else { old(self).bits@ },
                ).to_set().union(queued@.take(i as int).to_set().intersect(dom0)),
                forall|id: u64| #[trigger] self.cells().dom().contains(id) ==> self.cells()[id].depth == old(self).cells()[id].depth,
                forall|k: int|
                    0 <= k < self.channel(repaint).len() ==> entry_from(
                        #[trigger] self.channel(repaint)[k],
                        old(self).channel(repaint),
                        old(self).cells(),
                        queued@,
                    ),
            decreases queued.len() - i,
        {
            let ghost chan_before = if repaint { self.repaint@ } else { self.bits@ };
            let ghost chan_head = self.channel(repaint);
            let ghost cells_before = self.cells();
            let scope = PaintScope::from_id(queued[i]);
            if repaint {
                self.enqueue_repaint(scope);
            } else {
                self.enqueue_bits(scope);
            }
            proof {
                let id = queued@[i as int];
                let chan = if repaint { self.repaint@ } else { self.bits@ };
                assert(queued@.take(i + 1) =~= queued@.take(i as int).push(id));
                if chan.len() != chan_before.len() {
                    assert(chan.drop_last() =~= chan_before);
                } else if dom0.contains(id) {
                    assert(cells_before.dom().contains(id));
                }
                assert forall|x: u64| queued@.take(i + 1).contains(x) <==> (queued@.take(
                    i as int,
                ).contains(x) || x == id) by {
                    if queued@.take(i + 1).contains(x) && x != id {
                        let k = choose|k: int| 0 <= k < i + 1 && #[trigger] queued@.take(i + 1)[k] == x;
                        assert(queued@.take(i as int)[k] == x);
                    }
                    if queued@.take(i as int).contains(x) {
                        let k = choose|k: int| 0 <= k < i && #[trigger] queued@.take(i as int)[k] == x;
                        assert(queued@.take(i + 1)[k] == x);
                    }
                    assert(queued@.take(i + 1)[i as int] == id);
                }
                lemma_channel_step(
                    chan_before,
                    chan,
                    if repaint { old(self).repaint@ } else { old(self).bits@ },
                    queued@.take(i as int),
                    id,
                    dom0,
                );
                assert forall|k: int| 0 <= k < self.channel(repaint).len() implies entry_from(
                    #[trigger] self.channel(repaint)[k],
                    old(self).channel(repaint),
                    old(self).cells(),
                    queued@,
                ) by {
                    assert(self.channel(repaint) == chan);
                    assert(chan_head == chan_before);
                    if k < chan_before.len() {
                        assert(chan[k] == chan_before[k]);
                        assert(entry_from(chan_head[k], old(self).channel(repaint), old(self).cells(), queued@));
                    } else {
                        assert(chan[k] == (cells_before[id].depth, id));
                        assert(queued@[i as int] == id);
                        assert(queued@.contains(id));
                        assert(cells_before.dom().contains(id));
                        assert(cells_before[id].depth == old(self).cells()[id].depth);
                    }
                }
            }
            i = i + 1;
        }
        proof {
            assert(queued@.take(i as int) =~= queued@);
        }
        let run = if repaint {
            sort_rootmost_first(&self.repaint)
        } else {
            sort_rootmost_first(&self.bits)
        };
        let ghost channel0 = if repaint { self.repaint@ } else { self.bits@ };
        assert(channel0 == self.channel(repaint));
        let ids = ids_of(&run);
        let mut ordered: Vec<PaintScope> = Vec::new();
        let mut j: usize = 0;
        while j < ids.len()
            invariant
                j <= ids.len(),
                ids@ == entry_ids(run@),
                run@.to_set() == channel0.to_set(),
                forall|k: int| 0 <= k < channel0.len() ==> key_shaped(#[trigger] channel0[k].1),
                ordered@.len() == j,
                forall|m: int| 0 <= m < j ==> (#[trigger] ordered@[m]).id() == ids@[m],
            decreases ids.len() - j,
        {
            proof {
                assert(run@.to_set().contains(run@[j as int]));
                let k = choose|k: int| 0 <= k < channel0.len() && channel0[k] == run@[j as int];
                assert(key_shaped(channel0[k].1));
            }
            ordered.push(PaintScope::from_id(ids[j]));
            j = j + 1;
        }
        proof {
            assert(ordered@.map_values(|s: PaintScope| s.id()) =~= entry_ids(run@));
            assert forall|k: int| 0 <= k < run@.len() implies key_shaped(#[trigger] run@[k].1) by {
                assert(run@.to_set().contains(run@[k]));
                let m = choose|m: int| 0 <= m < channel0.len() && channel0[m] == run@[k];
                assert(entry_from(self.channel(repaint)[m], old(self).channel(repaint), old(self).cells(), queued@));
                assert(queued@ == old(self).deferred_of(repaint));
            }
            assert forall|x: u64| #[trigger] entry_ids(channel0).contains(x) implies entry_ids(run@).contains(x) by {
                let m = choose|m: int| 0 <= m < channel0.len() && entry_ids(channel0)[m] == x;
                assert(channel0.to_set().contains(channel0[m]));
                let k = choose|k: int| 0 <= k < run@.len() && run@[k] == channel0[m];
                assert(entry_ids(run@)[k] == x);
            }
        }
        proof {
            assert(ordered@.map_values(|s: PaintScope| s.id()) == entry_ids(run@));
            assert forall|x: u64| entry_ids(run@).contains(x) <==> entry_ids(channel0).contains(x) by {
                if entry_ids(run@).contains(x) {
                    let k = choose|k: int| 0 <= k < run@.len() && entry_ids(run@)[k] == x;
                    assert(run@.to_set().contains(run@[k]));
                    let m = choose|m: int| 0 <= m < channel0.len() && channel0[m] == run@[k];
                    assert(entry_ids(channel0)[m] == x);
                }
            }
            assert(entry_ids(run@).to_set() =~= entry_ids(channel0).to_set());
            assert forall|k: int| 0 <= k < run@.len() implies #[trigger] entry_from(
                run@[k],
                old(self).channel(repaint),
                old(self).cells(),
                old(self).deferred_of(repaint),
            ) by {
                assert(run@.to_set().contains(run@[k]));
                let m = choose|m: int| 0 <= m < channel0.len() && channel0[m] == run@[k];
                assert(entry_from(self.channel(repaint)[m], old(self).channel(repaint), old(self).cells(), queued@));
                assert(queued@ == old(self).deferred_of(repaint));
            }
            assert forall|x: u64| #[trigger] self.cells().dom().contains(x) && (if repaint {
                self.cells()[x].paint_queued
            } else {
                self.cells()[x].bits_queued
            }) implies entry_ids(run@).contains(x) by {
                assert(entry_ids(channel0).contains(x));
            }
        }
        if repaint {
            self.repaint = run;
            self.flushing_repaint = true;
        } else {
            self.bits = run;
            self.flushing_bits = true;
        }
        ordered
    }

    /// Takes the work of one boundary a flush drained from the compositing-bits channel
    /// (`repaint` false) or the repaint channel: a registered boundary still queued on that
    /// channel is unqueued, and the caller then recomputes its bits or repaints it; a boundary
    /// gone since it was queued, or already taken this flush, yields `false`.
    pub fn take(&mut self, scope: PaintScope, repaint: bool) -> (present: bool)
        requires
            old(self).wf(),
        ensures
            final(self).wf(),
            present == (old(self).cells().dom().contains(scope.id()) && (if repaint {
                old(self).cells()[scope.id()].paint_queued
            } else {
                old(self).cells()[scope.id()].bits_queued
            })),
            final(self).cells() == (if present {
                if repaint {
                    old(self).cells().insert(scope.id(), BoundaryCell { paint_queued: false, ..old(self).cells()[scope.id()] })
                } else {
                    old(self).cells().insert(scope.id(), BoundaryCell { bits_queued: false, ..old(self).cells()[scope.id()] })
                }
            } else {
                old(self).cells()
            }),
            final(self).bits() == old(self).bits(),
            final(self).repaint() == old(self).repaint(),
            final(self).deferred_bits() == old(self).deferred_bits(),
            final(self).deferred_repaint() == old(self).deferred_repaint(),
            final(self).flushing_bits() == old(self).flushing_bits(),
            final(self).flushing_repaint() == old(self).flushing_repaint(),
    {
        let id = scope.raw();
        let ghost before = self.cells();
        match self.registry.get(id) {
            Some(cell) => {
                let queued = if repaint {
                    cell.paint_queued
                } else {
                    cell.bits_queued
                };
                if !queued {
                    return false;
                }
                let updated = if repaint {
                    BoundaryCell { paint_queued: false, ..cell }
                } else {
                    BoundaryCell { bits_queued: false, ..cell }
                };
                self.registry.set(id, updated);
                proof {
                    lemma_cells_wf_insert(before, id, updated);
                }
                true
            },
            None => false,
        }
    }

    /// Ends a flush of one channel: empties it and releases the channels.
    pub fn end_channel(&mut self, repaint: bool)
        requires
            old(self).wf(),
            repaint ==> forall|id: u64| #[trigger] old(self).cells().dom().contains(id) ==> !old(self).cells()[id].paint_queued,
            !repaint ==> forall|id: u64| #[trigger] old(self).cells().dom().contains(id) ==> !old(self).cells()[id].bits_queued,
        ensures
            final(self).wf(),
            !final(self).flushing(repaint),
            final(self).flushing(!repaint) == old(self).flushing(!repaint),
            final(self).cells() == old(self).cells(),
            repaint ==> final(self).repaint() =~= Seq::empty() && final(self).bits() == old(self).bits(),
            !repaint ==> final(self).bits() =~= Seq::empty() && final(self).repaint() == old(self).repaint(),
            final(self).deferred_bits() == old(self).deferred_bits(),
            final(self).deferred_repaint() == old(self).deferred_repaint(),
    {
        if repaint {
            self.repaint.clear();
            self.flushing_repaint = false;
        } else {
            self.bits.clear();
            self.flushing_bits = false;
        }
    }
}

} // verus!
