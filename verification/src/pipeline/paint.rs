use vstd::prelude::*;

use crate::paint::scene::SceneCapacity;
use crate::pipeline::layout::{lemma_filter_without, remove_all, without};
use crate::pipeline::registry::{
    cells_wf, key_shaped, lemma_cells_wf_insert, lemma_cells_wf_remove, lemma_null_key_shaped,
    null_id, null_key_id, registry_capacity, registry_cells, BoundaryCell, BoundaryRegistry,
};

verus! {

/// Names the repaint boundary a render object paints into. A node holds the scope of its
/// nearest enclosing boundary and presents it to a pipeline, or a [`DeferredPaintScope`], to
/// repaint that boundary when its painting goes stale.
#[derive(Clone, Copy)]
pub struct PaintScope(u64);

impl PaintScope {
    #[verifier::type_invariant]
    spec fn shaped(self) -> bool {
        key_shaped(self.0)
    }

    /// The boundary this scope names, by the integer form of its key.
    pub closed spec fn id(self) -> u64 {
        self.0
    }

    /// The scope naming the boundary `id`.
    pub closed spec fn from_id_spec(id: u64) -> PaintScope {
        PaintScope(id)
    }

    /// A scope naming the boundary `id`.
    pub(crate) fn from_id(id: u64) -> (scope: PaintScope)
        requires
            key_shaped(id),
        ensures
            scope.id() == id,
            scope == PaintScope::from_id_spec(id),
    {
        PaintScope(id)
    }

    /// The integer form of the key this scope names.
    pub(crate) fn raw(&self) -> (id: u64)
        ensures
            id == self.id(),
            key_shaped(id),
    {
        proof {
            use_type_invariant(self);
        }
        self.0
    }

    /// The scope made from `id` names `id`.
    pub proof fn lemma_from_id_names(id: u64)
        ensures
            PaintScope::from_id_spec(id).id() == id,
    {
    }

    /// Two scopes naming the same boundary are the same scope.
    pub proof fn lemma_id_determines(a: PaintScope, b: PaintScope)
        requires
            a.id() == b.id(),
        ensures
            a == b,
    {
    }

    /// A scope detached from any pipeline, which names no boundary.
    pub fn detached() -> (scope: PaintScope)
        ensures
            scope.id() == null_key_id(),
    {
        let id = null_id();
        proof {
            lemma_null_key_shaped();
        }
        PaintScope(id)
    }

    /// Whether this scope names no boundary, because it was created detached.
    pub fn is_detached(&self) -> (r: bool)
        ensures
            r == (self.id() == null_key_id()),
    {
        self.0 == null_id()
    }
}


/// The kind of out-of-band mark queued for a boundary.
#[derive(Clone, Copy, PartialEq, Eq, Debug)]
pub enum DeferredKind {
    Paint,
    CompositingBits,
    Composite,
}

/// A [`PaintScope`] paired with the route to mark it from outside a pipeline pass, such as a
/// per-frame animation callback that holds no context. Each request is queued and applied on
/// the pipeline's next [`drain_deferred`](PaintPipeline::drain_deferred); a detached marker
/// marks nothing, and one whose boundary is gone is dropped when the boundary unregisters.
#[derive(Clone, Copy)]
pub struct DeferredPaintScope {
    id: u64,
    attached: bool,
}

impl DeferredPaintScope {
    #[verifier::type_invariant]
    spec fn shaped(self) -> bool {
        key_shaped(self.id)
    }

    /// The boundary this marker names.
    pub closed spec fn id(self) -> u64 {
        self.id
    }

    /// Whether this marker was handed out by a pipeline, so its marks reach one.
    pub closed spec fn attached(self) -> bool {
        self.attached
    }

    /// A marker detached from any pipeline, whose marks reach nothing.
    pub fn detached() -> (marker: DeferredPaintScope)
        ensures
            marker.id() == null_key_id(),
            !marker.attached(),
    {
        let id = null_id();
        proof {
            lemma_null_key_shaped();
        }
        DeferredPaintScope { id, attached: false }
    }

    /// Queues this boundary to be repainted on the pipeline's next frame.
    pub fn mark_needs_paint(&self, pipeline: &mut PaintPipeline)
        requires
            old(pipeline).wf(),
        ensures
            final(pipeline).wf(),
            final(pipeline).channels() == old(pipeline).channels(),
            final(pipeline).phase() == old(pipeline).phase(),
            final(pipeline).deferred() == queued(old(pipeline).deferred(), *self, DeferredKind::Paint),
    {
        self.push(pipeline, DeferredKind::Paint);
    }

    /// Queues this boundary's compositing bits to be recomputed, and the boundary repainted, on
    /// the next frame.
    pub fn mark_needs_compositing_bits_update(&self, pipeline: &mut PaintPipeline)
        requires
            old(pipeline).wf(),
        ensures
            final(pipeline).wf(),
            final(pipeline).channels() == old(pipeline).channels(),
            final(pipeline).phase() == old(pipeline).phase(),
            final(pipeline).deferred() == queued(
                old(pipeline).deferred(),
                *self,
                DeferredKind::CompositingBits,
            ),
    {
        self.push(pipeline, DeferredKind::CompositingBits);
    }

    /// Queues a recomposite of the subtree for the next frame, without repainting this boundary.
    pub fn mark_needs_composite(&self, pipeline: &mut PaintPipeline)
        requires
            old(pipeline).wf(),
        ensures
            final(pipeline).wf(),
            final(pipeline).channels() == old(pipeline).channels(),
            final(pipeline).phase() == old(pipeline).phase(),
            final(pipeline).deferred() == queued(
                old(pipeline).deferred(),
                *self,
                DeferredKind::Composite,
            ),
    {
        self.push(pipeline, DeferredKind::Composite);
    }

    /// Queues a mark of `kind` for this boundary, unless this marker is detached.
    pub fn push(&self, pipeline: &mut PaintPipeline, kind: DeferredKind)
        requires
            old(pipeline).wf(),
        ensures
            final(pipeline).wf(),
            final(pipeline).channels() == old(pipeline).channels(),
            final(pipeline).phase() == old(pipeline).phase(),
            final(pipeline).deferred() == queued(old(pipeline).deferred(), *self, kind),
    {
        proof {
            use_type_invariant(self);
        }
        if self.attached {
            pipeline.deferred.push((self.id, kind));
        }
    }
}

/// The queue of deferred marks once `marker` queues one of `kind`: the mark joins the end,
/// unless the marker is detached.
pub open spec fn queued(
    deferred: Seq<(u64, DeferredKind)>,
    marker: DeferredPaintScope,
    kind: DeferredKind,
) -> Seq<(u64, DeferredKind)> {
    if marker.attached() {
        deferred.push((marker.id(), kind))
    } else {
        deferred
    }
}

/// The phase a paint pipeline is in.
#[derive(Clone, Copy, PartialEq, Eq, Debug)]
pub enum PaintPipelinePhase {
    Idle,
    UpdateCompositingBits,
    Paint,
}

/// The work channels of a paint pipeline: the registered boundaries, the boundaries awaiting
/// repaint and a compositing-bits recompute, each in the order they were marked, and whether
/// a recomposite was requested.
pub type PaintChannels = (Map<u64, BoundaryCell>, Seq<u64>, Seq<u64>, bool);

/// The channels once `id` is linked for repaint: a registered boundary not yet queued joins the
/// end of the repaint channel.
pub open spec fn link_paint(st: PaintChannels, id: u64) -> PaintChannels {
    if st.0.dom().contains(id) && !st.0[id].paint_queued {
        (st.0.insert(id, BoundaryCell { paint_queued: true, ..st.0[id] }), st.1.push(id), st.2, st.3)
    } else {
        st
    }
}

/// The channels once `id` is linked for a compositing-bits recompute.
pub open spec fn link_bits(st: PaintChannels, id: u64) -> PaintChannels {
    if st.0.dom().contains(id) && !st.0[id].bits_queued {
        (st.0.insert(id, BoundaryCell { bits_queued: true, ..st.0[id] }), st.1, st.2.push(id), st.3)
    } else {
        st
    }
}

/// The channels once `id`'s compositing bits are marked: a changed bit changes how the
/// boundary paints, so it is linked for a recompute and for a repaint.
pub open spec fn link_compositing(st: PaintChannels, id: u64) -> PaintChannels {
    link_paint(link_bits(st, id), id)
}

/// Marking a boundary for repaint a second time before the paint pass changes nothing more than
/// the first mark did.
pub proof fn lemma_paint_mark_is_idempotent(st: PaintChannels, id: u64)
    ensures
        link_paint(link_paint(st, id), id) == link_paint(st, id),
{
}

/// Marking a boundary's compositing bits a second time before the pass changes nothing more
/// than the first mark did.
pub proof fn lemma_compositing_mark_is_idempotent(st: PaintChannels, id: u64)
    ensures
        link_compositing(link_compositing(st, id), id) == link_compositing(st, id),
{
    if st.0.dom().contains(id) {
        let once = link_compositing(st, id);
        assert(once.0.dom().contains(id));
        assert(once.0[id].bits_queued && once.0[id].paint_queued);
    }
}

/// A compositing-bits mark of a registered boundary also queues it for repaint, since a changed
/// bit changes how the boundary paints.
pub proof fn lemma_compositing_mark_queues_repaint(st: PaintChannels, id: u64)
    requires
        st.0.dom().contains(id),
    ensures
        link_compositing(st, id).0[id].bits_queued,
        link_compositing(st, id).0[id].paint_queued,
        link_compositing(st, id).1.contains(id) || st.0[id].paint_queued,
{
    let linked = link_compositing(st, id);
    if !st.0[id].paint_queued {
        assert(linked.1[linked.1.len() - 1] == id);
    }
}

/// Marks of a boundary that is not registered leave the channels as they were.
pub proof fn lemma_marks_of_unregistered_are_ignored(st: PaintChannels, id: u64)
    requires
        !st.0.dom().contains(id),
    ensures
        link_paint(st, id) == st,
        link_compositing(st, id) == st,
{
}

/// The channels once a recomposite is requested.
pub open spec fn request_composite(st: PaintChannels) -> PaintChannels {
    (st.0, st.1, st.2, true)
}

/// Whether nothing is awaiting repaint, compositing update, or recomposite.
pub open spec fn channels_clean(st: PaintChannels) -> bool {
    st.1.len() == 0 && st.2.len() == 0 && !st.3
}

/// The channels once one deferred mark is applied.
pub open spec fn apply_deferred(st: PaintChannels, mark: (u64, DeferredKind)) -> PaintChannels {
    match mark.1 {
        DeferredKind::Paint => link_paint(st, mark.0),
        DeferredKind::CompositingBits => link_compositing(st, mark.0),
        DeferredKind::Composite => request_composite(st),
    }
}

/// The channels once every deferred mark in `marks` is applied, in order.
pub open spec fn apply_all_deferred(st: PaintChannels, marks: Seq<(u64, DeferredKind)>) -> PaintChannels
    decreases marks.len(),
{
    if marks.len() == 0 {
        st
    } else {
        apply_deferred(apply_all_deferred(st, marks.drop_last()), marks.last())
    }
}

/// Whether applying `mark` during `phase` is refused: every mark is, outside the idle phase,
/// except a paint or compositing mark of a boundary no longer registered, which is ignored.
pub open spec fn refused_during(
    cells: Map<u64, BoundaryCell>,
    phase: PaintPipelinePhase,
    mark: (u64, DeferredKind),
) -> bool {
    phase != PaintPipelinePhase::Idle && (mark.1 == DeferredKind::Composite || cells.dom().contains(
        mark.0,
    ))
}

/// The record of a freshly registered repaint boundary: never painted and with its bits never
/// computed, so queued on both channels, with no recorded capacity.
pub open spec fn fresh_paint_cell() -> BoundaryCell {
    BoundaryCell {
        depth: 0,
        paint: null_key_id(),
        constrained: false,
        needs_layout: false,
        layout_linked: false,
        paint_queued: true,
        bits_queued: true,
        capacity_commands: 0,
        capacity_brushes: 0,
        capacity_strokes: 0,
    }
}

/// The boundaries a run of scopes names, in order.
pub open spec fn paint_scope_ids(scopes: Seq<PaintScope>) -> Seq<u64> {
    scopes.map_values(|s: PaintScope| s.id())
}

/// The cells once a channel has been drained: none is queued on it any more.
pub open spec fn drained_paint_cells(cells: Map<u64, BoundaryCell>) -> Map<u64, BoundaryCell> {
    cells.map_values(|c: BoundaryCell| BoundaryCell { paint_queued: false, ..c })
}

/// The cells once the compositing-bits channel has been drained.
pub open spec fn drained_bits_cells(cells: Map<u64, BoundaryCell>) -> Map<u64, BoundaryCell> {
    cells.map_values(|c: BoundaryCell| BoundaryCell { bits_queued: false, ..c })
}

/// The repaint capacity a cell records.
pub open spec fn cell_capacity(c: BoundaryCell) -> SceneCapacity {
    SceneCapacity {
        commands: c.capacity_commands,
        brushes: c.capacity_brushes,
        strokes: c.capacity_strokes,
    }
}

/// A registered repaint boundary, returned to the render object that registered it. It owns
/// the boundary's place in the pipeline and is the only thing
/// [`unregister`](PaintPipeline::unregister) accepts; it hands out mark-only [`PaintScope`]s
/// for the subtree.
pub struct PaintBoundaryHandle {
    id: u64,
}

impl PaintBoundaryHandle {
    #[verifier::type_invariant]
    spec fn shaped(self) -> bool {
        key_shaped(self.id)
    }

    /// The boundary this handle owns.
    pub closed spec fn id(self) -> u64 {
        self.id
    }

    /// A mark-only handle to this boundary, for descendants to repaint into it.
    pub fn scope(&self) -> (scope: PaintScope)
        ensures
            scope.id() == self.id(),
    {
        proof {
            use_type_invariant(self);
        }
        PaintScope(self.id)
    }

    /// Marks this boundary to be repainted on the next frame, returning whether the mark took
    /// the pipeline from clean to dirty.
    pub fn mark_needs_paint(&self, pipeline: &mut PaintPipeline) -> (requested: bool)
        requires
            old(pipeline).wf(),
            old(pipeline).cells().dom().contains(self.id()) ==> old(pipeline).phase()
                == PaintPipelinePhase::Idle,
        ensures
            final(pipeline).wf(),
            final(pipeline).channels() == link_paint(old(pipeline).channels(), self.id()),
            final(pipeline).deferred() == old(pipeline).deferred(),
            final(pipeline).phase() == old(pipeline).phase(),
            requested == (old(pipeline).cells().dom().contains(self.id()) && channels_clean(
                old(pipeline).channels(),
            )),
    {
        pipeline.mark_needs_paint(self.scope())
    }

    /// Marks this boundary's compositing bits for recomputation before its next repaint,
    /// returning whether the mark took the pipeline from clean to dirty.
    pub fn mark_needs_compositing_bits_update(&self, pipeline: &mut PaintPipeline) -> (requested:
        bool)
        requires
            old(pipeline).wf(),
            old(pipeline).cells().dom().contains(self.id()) ==> old(pipeline).phase()
                == PaintPipelinePhase::Idle,
        ensures
            final(pipeline).wf(),
            final(pipeline).channels() == link_compositing(old(pipeline).channels(), self.id()),
            final(pipeline).deferred() == old(pipeline).deferred(),
            final(pipeline).phase() == old(pipeline).phase(),
            requested == (old(pipeline).cells().dom().contains(self.id()) && channels_clean(
                old(pipeline).channels(),
            )),
    {
        pipeline.mark_needs_compositing_bits_update(self.scope())
    }

    /// Schedules a recomposite of the subtree on the next frame, without repainting this
    /// boundary, returning whether the request took the pipeline from clean to dirty.
    pub fn mark_needs_composite(&self, pipeline: &mut PaintPipeline) -> (requested: bool)
        requires
            old(pipeline).wf(),
            old(pipeline).phase() == PaintPipelinePhase::Idle,
        ensures
            final(pipeline).wf(),
            final(pipeline).channels() == request_composite(old(pipeline).channels()),
            final(pipeline).deferred() == old(pipeline).deferred(),
            final(pipeline).phase() == old(pipeline).phase(),
            requested == channels_clean(old(pipeline).channels()),
    {
        pipeline.mark_needs_composite(self.scope())
    }
}

/// Recomputes and repaints the content of one repaint boundary. The driver implements it over
/// the boundaries' render objects and retained layers.
pub trait RepaintContent {
    /// The boundaries this content has repainted so far, in order. Every implementation is meant to
    /// define it over ghost state it keeps (a `Ghost` field) and so meet the contracts below. The
    /// empty default exists only so that implementations outside verified code compile; it meets
    /// none of those contracts, and what is proved of callers holds of such an implementation only
    /// if it does what the contracts say.
    closed spec fn painted(&self) -> Seq<u64> {
        Seq::empty()
    }

    /// The boundaries whose compositing bits this content has recomputed so far, in order;
    /// kept and defined as [`painted`](Self::painted) is.
    closed spec fn bits_updated(&self) -> Seq<u64> {
        Seq::empty()
    }

    /// Recomputes the compositing bits of the boundary `scope` names.
    fn update_compositing_bits(&mut self, scope: PaintScope) -> (changed: bool)
        ensures
            final(self).bits_updated() == old(self).bits_updated().push(scope.id()),
            final(self).painted() == old(self).painted(),
    ;

    /// Clears the layer of the boundary `scope` names and repaints its content into it, with
    /// buffers sized to `capacity`, returning the capacity the recording reached.
    fn paint(&mut self, scope: PaintScope, capacity: SceneCapacity) -> (reached: SceneCapacity)
        ensures
            final(self).painted() == old(self).painted().push(scope.id()),
            final(self).bits_updated() == old(self).bits_updated(),
    ;
}

/// Owns the repaint boundaries of one subtree and tracks which ones must be repainted.
///
/// Every boundary paints into its own retained layer and can be repainted on its own, leaving
/// every other boundary's layer untouched. Mark a boundary through the [`PaintBoundaryHandle`]
/// returned when it is registered, or through a [`PaintScope`] it handed out.
pub struct PaintPipeline {
    boundaries: BoundaryRegistry,
    needs_paint: Vec<u64>,
    needs_compositing: Vec<u64>,
    needs_composite: bool,
    deferred: Vec<(u64, DeferredKind)>,
    phase: PaintPipelinePhase,
}

impl PaintPipeline {
    /// The registered boundaries, by key.
    pub closed spec fn cells(&self) -> Map<u64, BoundaryCell> {
        registry_cells(self.boundaries)
    }

    /// The registered boundaries, the repaint and compositing-bits channels, and whether a
    /// recomposite is pending.
    pub closed spec fn channels(&self) -> PaintChannels {
        (registry_cells(self.boundaries), self.needs_paint@, self.needs_compositing@, self.needs_composite)
    }

    /// The channels carry the registered boundaries as their first part.
    pub proof fn lemma_channels_hold_cells(&self)
        ensures
            self.channels().0 == self.cells(),
    {
    }

    /// The out-of-band marks queued since the last drain.
    pub closed spec fn deferred(&self) -> Seq<(u64, DeferredKind)> {
        self.deferred@
    }

    /// The phase the pipeline is in.
    pub closed spec fn phase(&self) -> PaintPipelinePhase {
        self.phase
    }

    /// The pipeline's internal consistency: a boundary is queued on a channel exactly when it
    /// sits in that channel, once, and every recorded key has the shape of a slot map key.
    pub closed spec fn wf(&self) -> bool {
        let cells = self.cells();
        &&& cells_wf(cells)
        &&& self.needs_paint@.no_duplicates()
        &&& self.needs_compositing@.no_duplicates()
        &&& forall|i: int|
            0 <= i < self.needs_paint@.len() ==> cells.dom().contains(#[trigger] self.needs_paint@[i])
                && cells[self.needs_paint@[i]].paint_queued
        &&& forall|i: int|
            0 <= i < self.needs_compositing@.len() ==> cells.dom().contains(
                #[trigger] self.needs_compositing@[i],
            ) && cells[self.needs_compositing@[i]].bits_queued
        &&& forall|id: u64|
            #[trigger] cells.dom().contains(id) ==> (cells[id].paint_queued ==> self.needs_paint@.contains(id))
                && (cells[id].bits_queued ==> self.needs_compositing@.contains(id))
        &&& forall|i: int| 0 <= i < self.deferred@.len() ==> key_shaped(#[trigger] self.deferred@[i].0)
    }

    /// A pipeline with nothing registered, idle.
    pub fn empty() -> (pipeline: PaintPipeline)
        ensures
            pipeline.wf(),
            pipeline.channels() == (Map::<u64, BoundaryCell>::empty(), Seq::<u64>::empty(), Seq::<u64>::empty(), false),
            pipeline.deferred() =~= Seq::empty(),
            pipeline.phase() == PaintPipelinePhase::Idle,
    {
        let pipeline = PaintPipeline {
            boundaries: BoundaryRegistry::new(),
            needs_paint: Vec::new(),
            needs_compositing: Vec::new(),
            needs_composite: false,
            deferred: Vec::new(),
            phase: PaintPipelinePhase::Idle,
        };
        assert(pipeline.needs_paint@ =~= Seq::<u64>::empty());
        assert(pipeline.needs_compositing@ =~= Seq::<u64>::empty());
        pipeline
    }

    /// A pipeline with the root boundary registered, together with the handle that owns it.
    pub fn new() -> (created: (PaintPipeline, PaintBoundaryHandle))
        ensures
            created.0.wf(),
            created.0.cells() == Map::<u64, BoundaryCell>::empty().insert(created.1.id(), fresh_paint_cell()),
            created.0.channels().1 == seq![created.1.id()],
            created.0.channels().2 == seq![created.1.id()],
            !created.0.channels().3,
            created.0.deferred() =~= Seq::empty(),
            created.0.phase() == PaintPipelinePhase::Idle,
    {
        let mut pipeline = PaintPipeline::empty();
        let handle = pipeline.register();
        assert(seq![handle.id()] =~= Seq::<u64>::empty().push(handle.id()));
        (pipeline, handle)
    }

    /// Whether nothing is awaiting repaint, compositing update, or recomposite.
    pub fn is_clean(&self) -> (r: bool)
        ensures
            r == channels_clean(self.channels()),
    {
        self.needs_paint.len() == 0 && self.needs_compositing.len() == 0 && !self.needs_composite
    }

    /// Adds a boundary, returning the handle that owns it and hands out [`PaintScope`]s for
    /// marking it. A fresh boundary has never been painted and its bits have never been
    /// computed, so it joins both channels. Registering while updating compositing bits or
    /// painting is a caller error, ruled out by `requires`.
    pub fn register(&mut self) -> (handle: PaintBoundaryHandle)
        requires
            old(self).wf(),
            old(self).phase() == PaintPipelinePhase::Idle,
            old(self).cells().dom().len() < registry_capacity(),
        ensures
            final(self).wf(),
            !old(self).cells().dom().contains(handle.id()),
            handle.id() != null_key_id(),
            final(self).channels() == (
                old(self).cells().insert(handle.id(), fresh_paint_cell()),
                old(self).channels().1.push(handle.id()),
                old(self).channels().2.push(handle.id()),
                old(self).channels().3,
            ),
            final(self).deferred() == old(self).deferred(),
            final(self).phase() == old(self).phase(),
    {
        let null = null_id();
        let cell = BoundaryCell {
            depth: 0,
            paint: null,
            constrained: false,
            needs_layout: false,
            layout_linked: false,
            paint_queued: true,
            bits_queued: true,
            capacity_commands: 0,
            capacity_brushes: 0,
            capacity_strokes: 0,
        };
        let ghost before = self.cells();
        let id = self.boundaries.insert(cell);
        self.needs_paint.push(id);
        self.needs_compositing.push(id);
        proof {
            lemma_cells_wf_insert(before, id, cell);
            assert(!old(self).needs_paint@.contains(id));
            assert(!old(self).needs_compositing@.contains(id));
            assert forall|i: int| 0 <= i < self.needs_paint@.len() implies self.cells().dom().contains(
                #[trigger] self.needs_paint@[i],
            ) && self.cells()[self.needs_paint@[i]].paint_queued by {
                if i < old(self).needs_paint@.len() {
                    assert(before.dom().contains(old(self).needs_paint@[i]));
                }
            }
            assert forall|i: int| 0 <= i < self.needs_compositing@.len() implies self.cells().dom().contains(
                #[trigger] self.needs_compositing@[i],
            ) && self.cells()[self.needs_compositing@[i]].bits_queued by {
                if i < old(self).needs_compositing@.len() {
                    assert(before.dom().contains(old(self).needs_compositing@[i]));
                }
            }
            assert forall|x: u64| #[trigger] self.cells().dom().contains(x) implies (
            self.cells()[x].paint_queued ==> self.needs_paint@.contains(x)) && (
            self.cells()[x].bits_queued ==> self.needs_compositing@.contains(x)) by {
                if x == id {
                    assert(self.needs_paint@[self.needs_paint@.len() - 1] == x);
                    assert(self.needs_compositing@[self.needs_compositing@.len() - 1] == x);
                } else {
                    if self.cells()[x].paint_queued {
                        let k = choose|k: int| 0 <= k < old(self).needs_paint@.len() && old(self).needs_paint@[k] == x;
                        assert(self.needs_paint@[k] == x);
                    }
                    if self.cells()[x].bits_queued {
                        let k = choose|k: int| 0 <= k < old(self).needs_compositing@.len() && old(self).needs_compositing@[k] == x;
                        assert(self.needs_compositing@[k] == x);
                    }
                }
            }
        }
        PaintBoundaryHandle { id }
    }

    /// Removes a boundary, discarding any pending mark and queued deferred mark of it. The
    /// handle is spent. Unregistering while updating compositing bits or painting is a caller
    /// error, ruled out by `requires`.
    pub fn unregister(&mut self, handle: PaintBoundaryHandle)
        requires
            old(self).wf(),
            old(self).phase() == PaintPipelinePhase::Idle,
        ensures
            final(self).wf(),
            final(self).channels() == (
                old(self).cells().remove(handle.id()),
                without(old(self).channels().1, handle.id()),
                without(old(self).channels().2, handle.id()),
                old(self).channels().3,
            ),
            final(self).deferred() == without_marks(old(self).deferred(), handle.id()),
            final(self).phase() == old(self).phase(),
    {
        proof {
            use_type_invariant(&handle);
        }
        let id = handle.id;
        let ghost before = self.cells();
        self.boundaries.remove(id);
        proof {
            lemma_cells_wf_remove(before, id);
        }
        let paint = remove_all(&self.needs_paint, id);
        self.needs_paint = paint;
        let bits = remove_all(&self.needs_compositing, id);
        self.needs_compositing = bits;
        let deferred = remove_marks(&self.deferred, id);
        self.deferred = deferred;
        proof {
            let p0 = old(self).needs_paint@;
            let b0 = old(self).needs_compositing@;
            lemma_filter_without(p0, id);
            lemma_filter_without(b0, id);
            assert forall|i: int| 0 <= i < self.needs_paint@.len() implies self.cells().dom().contains(
                #[trigger] self.needs_paint@[i],
            ) && self.cells()[self.needs_paint@[i]].paint_queued by {
                let k = choose|k: int| 0 <= k < p0.len() && p0[k] == self.needs_paint@[i];
            }
            assert forall|i: int| 0 <= i < self.needs_compositing@.len() implies self.cells().dom().contains(
                #[trigger] self.needs_compositing@[i],
            ) && self.cells()[self.needs_compositing@[i]].bits_queued by {
                let k = choose|k: int| 0 <= k < b0.len() && b0[k] == self.needs_compositing@[i];
            }
            assert forall|x: u64| #[trigger] self.cells().dom().contains(x) implies (
            self.cells()[x].paint_queued ==> self.needs_paint@.contains(x)) && (
            self.cells()[x].bits_queued ==> self.needs_compositing@.contains(x)) by {
                assert(before.dom().contains(x));
            }
            lemma_without_marks_push(old(self).deferred@, (id, DeferredKind::Paint), id);
            assert forall|i: int| 0 <= i < self.deferred@.len() implies key_shaped(
                #[trigger] self.deferred@[i].0,
            ) by {
                assert(old(self).deferred@.contains(self.deferred@[i]));
                let k = choose|k: int| 0 <= k < old(self).deferred@.len() && old(self).deferred@[k]
                    == self.deferred@[i];
            }
        }
    }

    /// Marks `scope`'s boundary to be repainted on the next frame, returning whether the mark
    /// took the pipeline from clean to dirty, when the driver must schedule a frame. A mark of
    /// a boundary no longer registered is ignored; marking a registered one while updating
    /// compositing bits or painting is a caller error, ruled out by `requires`.
    pub fn mark_needs_paint(&mut self, scope: PaintScope) -> (requested: bool)
        requires
            old(self).wf(),
            old(self).cells().dom().contains(scope.id()) ==> old(self).phase()
                == PaintPipelinePhase::Idle,
        ensures
            final(self).wf(),
            final(self).channels() == link_paint(old(self).channels(), scope.id()),
            final(self).deferred() == old(self).deferred(),
            final(self).phase() == old(self).phase(),
            requested == (old(self).cells().dom().contains(scope.id()) && channels_clean(
                old(self).channels(),
            )),
    {
        proof {
            use_type_invariant(&scope);
        }
        if self.boundaries.get(scope.0).is_none() {
            return false;
        }
        let was_clean = self.is_clean();
        self.link_paint_id(scope.0);
        was_clean
    }

    /// Marks `scope`'s compositing bits for recomputation before its next repaint, and the
    /// boundary for repaint, returning whether the mark took the pipeline from clean to dirty.
    pub fn mark_needs_compositing_bits_update(&mut self, scope: PaintScope) -> (requested: bool)
        requires
            old(self).wf(),
            old(self).cells().dom().contains(scope.id()) ==> old(self).phase()
                == PaintPipelinePhase::Idle,
        ensures
            final(self).wf(),
            final(self).channels() == link_compositing(old(self).channels(), scope.id()),
            final(self).deferred() == old(self).deferred(),
            final(self).phase() == old(self).phase(),
            requested == (old(self).cells().dom().contains(scope.id()) && channels_clean(
                old(self).channels(),
            )),
    {
        proof {
            use_type_invariant(&scope);
        }
        if self.boundaries.get(scope.0).is_none() {
            return false;
        }
        let was_clean = self.is_clean();
        self.link_bits_id(scope.0);
        self.link_paint_id(scope.0);
        was_clean
    }

    /// Schedules a recomposite of the subtree on the next frame, without repainting any
    /// boundary, returning whether the request took the pipeline from clean to dirty. Requesting
    /// one while updating compositing bits or painting is a caller error, ruled out by
    /// `requires`.
    pub fn mark_needs_composite(&mut self, scope: PaintScope) -> (requested: bool)
        requires
            old(self).wf(),
            old(self).phase() == PaintPipelinePhase::Idle,
        ensures
            final(self).wf(),
            final(self).channels() == request_composite(old(self).channels()),
            final(self).deferred() == old(self).deferred(),
            final(self).phase() == old(self).phase(),
            requested == channels_clean(old(self).channels()),
    {
        let was_clean = self.is_clean();
        self.needs_composite = true;
        was_clean
    }

    fn link_paint_id(&mut self, id: u64)
        requires
            old(self).wf(),
            key_shaped(id),
        ensures
            final(self).wf(),
            final(self).channels() == link_paint(old(self).channels(), id),
            final(self).deferred() == old(self).deferred(),
            final(self).phase() == old(self).phase(),
    {
        let ghost before = self.cells();
        let cell = match self.boundaries.get(id) {
            Some(cell) => cell,
            None => {
                return;
            },
        };
        if cell.paint_queued {
            return;
        }
        let updated = BoundaryCell { paint_queued: true, ..cell };
        self.boundaries.set(id, updated);
        self.needs_paint.push(id);
        proof {
            lemma_cells_wf_insert(before, id, updated);
            assert(!old(self).needs_paint@.contains(id));
            assert forall|i: int| 0 <= i < self.needs_paint@.len() implies self.cells().dom().contains(
                #[trigger] self.needs_paint@[i],
            ) && self.cells()[self.needs_paint@[i]].paint_queued by {
                if i < old(self).needs_paint@.len() {
                    assert(old(self).needs_paint@[i] == self.needs_paint@[i]);
                }
            }
            assert forall|i: int| 0 <= i < self.needs_compositing@.len() implies self.cells().dom().contains(
                #[trigger] self.needs_compositing@[i],
            ) && self.cells()[self.needs_compositing@[i]].bits_queued by {
                assert(before.dom().contains(self.needs_compositing@[i]));
            }
            assert forall|x: u64| #[trigger] self.cells().dom().contains(x) implies (
            self.cells()[x].paint_queued ==> self.needs_paint@.contains(x)) && (
            self.cells()[x].bits_queued ==> self.needs_compositing@.contains(x)) by {
                if x == id {
                    assert(self.needs_paint@[self.needs_paint@.len() - 1] == x);
                } else if self.cells()[x].paint_queued {
                    let k = choose|k: int| 0 <= k < old(self).needs_paint@.len() && old(self).needs_paint@[k] == x;
                    assert(self.needs_paint@[k] == x);
                }
            }
        }
    }

    fn link_bits_id(&mut self, id: u64)
        requires
            old(self).wf(),
            key_shaped(id),
        ensures
            final(self).wf(),
            final(self).channels() == link_bits(old(self).channels(), id),
            final(self).deferred() == old(self).deferred(),
            final(self).phase() == old(self).phase(),
    {
        let ghost before = self.cells();
        let cell = match self.boundaries.get(id) {
            Some(cell) => cell,
            None => {
                return;
            },
        };
        if cell.bits_queued {
            return;
        }
        let updated = BoundaryCell { bits_queued: true, ..cell };
        self.boundaries.set(id, updated);
        self.needs_compositing.push(id);
        proof {
            lemma_cells_wf_insert(before, id, updated);
            assert(!old(self).needs_compositing@.contains(id));
            assert forall|i: int| 0 <= i < self.needs_compositing@.len() implies self.cells().dom().contains(
                #[trigger] self.needs_compositing@[i],
            ) && self.cells()[self.needs_compositing@[i]].bits_queued by {
                if i < old(self).needs_compositing@.len() {
                    assert(old(self).needs_compositing@[i] == self.needs_compositing@[i]);
                }
            }
            assert forall|i: int| 0 <= i < self.needs_paint@.len() implies self.cells().dom().contains(
                #[trigger] self.needs_paint@[i],
            ) && self.cells()[self.needs_paint@[i]].paint_queued by {
                assert(before.dom().contains(self.needs_paint@[i]));
            }
            assert forall|x: u64| #[trigger] self.cells().dom().contains(x) implies (
            self.cells()[x].paint_queued ==> self.needs_paint@.contains(x)) && (
            self.cells()[x].bits_queued ==> self.needs_compositing@.contains(x)) by {
                if x == id {
                    assert(self.needs_compositing@[self.needs_compositing@.len() - 1] == x);
                } else if self.cells()[x].bits_queued {
                    let k = choose|k: int| 0 <= k < old(self).needs_compositing@.len() && old(self).needs_compositing@[k] == x;
                    assert(self.needs_compositing@[k] == x);
                }
            }
        }
    }

    /// A deferred handle to `scope`'s boundary, for marking it from a callback that runs with
    /// no pipeline pass in progress, such as a per-frame animation.
    pub fn deferred_scope(&self, scope: PaintScope) -> (marker: DeferredPaintScope)
        ensures
            marker.id() == scope.id(),
            marker.attached(),
    {
        proof {
            use_type_invariant(&scope);
        }
        DeferredPaintScope { id: scope.0, attached: true }
    }

    /// Applies every out-of-band mark queued since the last drain, in the order they were
    /// queued, and empties the queue. Called once at the start of a frame, before the channels
    /// are flushed. Returns whether the marks took the pipeline from clean to dirty.
    pub fn drain_deferred(&mut self) -> (requested: bool)
        requires
            old(self).wf(),
            forall|i: int|
                0 <= i < old(self).deferred().len() ==> !refused_during(
                    old(self).cells(),
                    old(self).phase(),
                    #[trigger] old(self).deferred()[i],
                ),
        ensures
            final(self).wf(),
            final(self).channels() == apply_all_deferred(old(self).channels(), old(self).deferred()),
            final(self).deferred() =~= Seq::empty(),
            final(self).phase() == old(self).phase(),
            requested == (channels_clean(old(self).channels()) && !channels_clean(
                final(self).channels(),
            )),
    {
        let mut queued: Vec<(u64, DeferredKind)> = Vec::new();
        std::mem::swap(&mut queued, &mut self.deferred);
        let ghost start = self.channels();
        let mut requested = false;
        let mut i: usize = 0;
        while i < queued.len()
            invariant
                self.wf(),
                i <= queued.len(),
                queued@ == old(self).deferred(),
                start == old(self).channels(),
                self.deferred@ =~= Seq::<(u64, DeferredKind)>::empty(),
                self.phase == old(self).phase(),
                self.channels() == apply_all_deferred(start, queued@.subrange(0, i as int)),
                self.cells().dom() == start.0.dom(),
                forall|k: int|
                    0 <= k < old(self).deferred().len() ==> !refused_during(
                        old(self).cells(),
                        old(self).phase(),
                        #[trigger] old(self).deferred()[k],
                    ),
                forall|k: int| 0 <= k < queued@.len() ==> key_shaped(#[trigger] queued@[k].0),
                requested == (channels_clean(start) && !channels_clean(self.channels())),
                !channels_clean(start) ==> !channels_clean(self.channels()),
            decreases queued.len() - i,
        {
            let (id, kind) = queued[i];
            let ghost prefix = queued@.subrange(0, i as int);
            let ghost was = self.channels();
            proof {
                assert(old(self).deferred()[i as int] == (id, kind));
                if was.0.dom().contains(id) {
                    assert(was.0[id].paint_queued ==> was.1.contains(id));
                    assert(was.0[id].bits_queued ==> was.2.contains(id));
                }
            }
            let scope = PaintScope(id);
            let r = match kind {
                DeferredKind::Paint => self.mark_needs_paint(scope),
                DeferredKind::CompositingBits => self.mark_needs_compositing_bits_update(scope),
                DeferredKind::Composite => self.mark_needs_composite(scope),
            };
            proof {
                assert(queued@.subrange(0, i + 1 as int).drop_last() =~= prefix);
                assert(queued@.subrange(0, i + 1 as int).last() == (id, kind));
                if r {
                    assert(channels_clean(was));
                    if kind != DeferredKind::Composite {
                        assert(self.channels().1.len() > 0);
                    }
                }
                if !channels_clean(was) {
                    assert(!channels_clean(self.channels()));
                }
                if !r && channels_clean(was) {
                    assert(!was.0.dom().contains(id));
                    assert(self.channels() == was);
                }
            }
            requested = requested || r;
            i = i + 1;
        }
        proof {
            assert(queued@.subrange(0, i as int) =~= queued@);
        }
        requested
    }

    /// Starts recomputing compositing bits: drains the compositing-bits channel and returns the
    /// boundaries it held, in the order they were marked. The caller recomputes each
    /// boundary's bits, then calls [`end_compositing_bits`](Self::end_compositing_bits); marks,
    /// registration and removal are refused until then.
    pub fn begin_compositing_bits(&mut self) -> (marked: Vec<PaintScope>)
        requires
            old(self).wf(),
            old(self).phase() == PaintPipelinePhase::Idle,
        ensures
            final(self).wf(),
            final(self).phase() == PaintPipelinePhase::UpdateCompositingBits,
            paint_scope_ids(marked@) == old(self).channels().2,
            final(self).channels() == (
                drained_bits_cells(old(self).cells()),
                old(self).channels().1,
                Seq::<u64>::empty(),
                old(self).channels().3,
            ),
            final(self).deferred() == old(self).deferred(),
    {
        self.phase = PaintPipelinePhase::UpdateCompositingBits;
        let marked = self.drain_channel(false);
        marked
    }

    /// Ends a compositing-bits update, so marks are accepted again.
    pub fn end_compositing_bits(&mut self)
        requires
            old(self).wf(),
        ensures
            final(self).wf(),
            final(self).phase() == PaintPipelinePhase::Idle,
            final(self).channels() == old(self).channels(),
            final(self).deferred() == old(self).deferred(),
    {
        self.phase = PaintPipelinePhase::Idle;
    }

    /// Starts repainting: satisfies any standalone recomposite request, since this flush is
    /// part of the frame that composites, then drains the repaint channel and returns the
    /// boundaries it held, in the order they were marked, each with the capacity its last
    /// repaint recorded. The caller clears each boundary's layer and repaints it, records the
    /// capacity the repaint reached with [`record_capacity`](Self::record_capacity), then calls
    /// [`end_paint`](Self::end_paint); marks, registration and removal are refused until then.
    pub fn begin_paint(&mut self) -> (marked: Vec<(PaintScope, SceneCapacity)>)
        requires
            old(self).wf(),
            old(self).phase() == PaintPipelinePhase::Idle,
        ensures
            final(self).wf(),
            final(self).phase() == PaintPipelinePhase::Paint,
            marked@.len() == old(self).channels().1.len(),
            forall|i: int|
                0 <= i < marked@.len() ==> (#[trigger] marked@[i]).0.id() == old(self).channels().1[i]
                    && marked@[i].1 == cell_capacity(old(self).cells()[old(self).channels().1[i]]),
            final(self).channels() == (
                drained_paint_cells(old(self).cells()),
                Seq::<u64>::empty(),
                old(self).channels().2,
                false,
            ),
            final(self).deferred() == old(self).deferred(),
    {
        self.needs_composite = false;
        self.phase = PaintPipelinePhase::Paint;
        let ghost cells0 = self.cells();
        let ghost list0 = self.needs_paint@;
        let mut marked: Vec<(PaintScope, SceneCapacity)> = Vec::new();
        let mut i: usize = 0;
        while i < self.needs_paint.len()
            invariant
                self.wf(),
                self.needs_paint@ == list0,
                list0 == old(self).needs_paint@,
                cells0 == old(self).cells(),
                self.cells() == cells0,
                i <= list0.len(),
                marked@.len() == i,
                forall|k: int|
                    0 <= k < i ==> (#[trigger] marked@[k]).0.id() == list0[k] && marked@[k].1
                        == cell_capacity(cells0[list0[k]]),
            decreases list0.len() - i,
        {
            let id = self.needs_paint[i];
            let cell = self.boundaries.get(id).unwrap();
            marked.push((PaintScope(id), SceneCapacity {
                commands: cell.capacity_commands,
                brushes: cell.capacity_brushes,
                strokes: cell.capacity_strokes,
            }));
            i = i + 1;
        }
        let ignored = self.drain_channel(true);
        marked
    }

    /// Records the capacity `scope`'s repaint reached, sizing its next repaint.
    pub fn record_capacity(&mut self, scope: PaintScope, capacity: SceneCapacity)
        requires
            old(self).wf(),
        ensures
            final(self).wf(),
            final(self).channels() == (
                if old(self).cells().dom().contains(scope.id()) {
                    old(self).cells().insert(
                        scope.id(),
                        BoundaryCell {
                            capacity_commands: capacity.commands,
                            capacity_brushes: capacity.brushes,
                            capacity_strokes: capacity.strokes,
                            ..old(self).cells()[scope.id()]
                        },
                    )
                } else {
                    old(self).cells()
                },
                old(self).channels().1,
                old(self).channels().2,
                old(self).channels().3,
            ),
            final(self).deferred() == old(self).deferred(),
            final(self).phase() == old(self).phase(),
    {
        proof {
            use_type_invariant(&scope);
        }
        let ghost before = self.cells();
        if let Some(cell) = self.boundaries.get(scope.0) {
            let updated = BoundaryCell {
                capacity_commands: capacity.commands,
                capacity_brushes: capacity.brushes,
                capacity_strokes: capacity.strokes,
                ..cell
            };
            self.boundaries.set(scope.0, updated);
            proof {
                lemma_cells_wf_insert(before, scope.0, updated);
                assert forall|i: int| 0 <= i < self.needs_paint@.len() implies self.cells().dom().contains(
                    #[trigger] self.needs_paint@[i],
                ) && self.cells()[self.needs_paint@[i]].paint_queued by {
                    assert(before.dom().contains(self.needs_paint@[i]));
                }
                assert forall|i: int| 0 <= i < self.needs_compositing@.len() implies self.cells().dom().contains(
                    #[trigger] self.needs_compositing@[i],
                ) && self.cells()[self.needs_compositing@[i]].bits_queued by {
                    assert(before.dom().contains(self.needs_compositing@[i]));
                }
            }
        }
    }

    /// Ends a repaint, so marks are accepted again.
    pub fn end_paint(&mut self)
        requires
            old(self).wf(),
        ensures
            final(self).wf(),
            final(self).phase() == PaintPipelinePhase::Idle,
            final(self).channels() == old(self).channels(),
            final(self).deferred() == old(self).deferred(),
    {
        self.phase = PaintPipelinePhase::Idle;
    }

    /// Recomputes the compositing bits of every marked boundary, in the order they were marked,
    /// settling them before any repaint reads them.
    pub fn flush_compositing_bits<C: RepaintContent>(&mut self, content: &mut C)
        requires
            old(self).wf(),
            old(self).phase() == PaintPipelinePhase::Idle,
        ensures
            final(self).wf(),
            final(self).phase() == PaintPipelinePhase::Idle,
            final(self).channels() == (
                drained_bits_cells(old(self).cells()),
                old(self).channels().1,
                Seq::<u64>::empty(),
                old(self).channels().3,
            ),
            final(self).deferred() == old(self).deferred(),
            final(content).bits_updated() == old(content).bits_updated() + old(self).channels().2,
            final(content).painted() == old(content).painted(),
    {
        let marked = self.begin_compositing_bits();
        let ghost ids = paint_scope_ids(marked@);
        let mut i: usize = 0;
        while i < marked.len()
            invariant
                i <= marked.len(),
                ids == paint_scope_ids(marked@),
                ids == old(self).channels().2,
                content.bits_updated() == old(content).bits_updated() + ids.take(i as int),
                content.painted() == old(content).painted(),
            decreases marked.len() - i,
        {
            let changed = content.update_compositing_bits(marked[i]);
            proof {
                assert(ids.take(i + 1) =~= ids.take(i as int).push(marked@[i as int].id()));
            }
            i = i + 1;
        }
        proof {
            assert(ids.take(i as int) =~= ids);
        }
        self.end_compositing_bits();
    }

    /// Repaints every marked boundary into its own layer, in the order they were marked,
    /// leaving the rest as they are, and satisfies any standalone recomposite request.
    pub fn flush_paint<C: RepaintContent>(&mut self, content: &mut C)
        requires
            old(self).wf(),
            old(self).phase() == PaintPipelinePhase::Idle,
        ensures
            final(self).wf(),
            final(self).phase() == PaintPipelinePhase::Idle,
            final(self).cells().dom() == old(self).cells().dom(),
            final(self).channels().1 =~= Seq::empty(),
            final(self).channels().2 == old(self).channels().2,
            !final(self).channels().3,
            forall|id: u64| #[trigger]
                final(self).cells().dom().contains(id) ==> !final(self).cells()[id].paint_queued
                    && final(self).cells()[id].bits_queued == old(self).cells()[id].bits_queued,
            final(self).deferred() == old(self).deferred(),
            final(content).painted() == old(content).painted() + old(self).channels().1,
            final(content).bits_updated() == old(content).bits_updated(),
    {
        let marked = self.begin_paint();
        let ghost drained = self.cells();
        let ghost ids = old(self).channels().1;
        let mut i: usize = 0;
        while i < marked.len()
            invariant
                self.wf(),
                i <= marked.len(),
                self.phase() == PaintPipelinePhase::Paint,
                self.cells().dom() == old(self).cells().dom(),
                self.channels().1 =~= Seq::<u64>::empty(),
                self.channels().2 == old(self).channels().2,
                !self.channels().3,
                forall|id: u64| #[trigger]
                    self.cells().dom().contains(id) ==> !self.cells()[id].paint_queued
                        && self.cells()[id].bits_queued == old(self).cells()[id].bits_queued,
                self.deferred() == old(self).deferred(),
                ids == old(self).channels().1,
                marked@.len() == ids.len(),
                forall|k: int| 0 <= k < marked@.len() ==> (#[trigger] marked@[k]).0.id() == ids[k],
                content.painted() == old(content).painted() + ids.take(i as int),
                content.bits_updated() == old(content).bits_updated(),
            decreases marked.len() - i,
        {
            let (scope, capacity) = marked[i];
            let recorded = content.paint(scope, capacity);
            proof {
                assert(ids.take(i + 1) =~= ids.take(i as int).push(scope.id()));
            }
            self.record_capacity(scope, recorded);
            i = i + 1;
        }
        proof {
            assert(ids.take(i as int) =~= ids);
        }
        self.end_paint();
    }

    /// Drains the repaint channel (`paint`) or the compositing-bits channel, clearing the
    /// queued flag of every boundary it held, and returns those boundaries in channel order.
    fn drain_channel(&mut self, paint: bool) -> (drained: Vec<PaintScope>)
        requires
            old(self).wf(),
        ensures
            final(self).wf(),
            final(self).phase() == old(self).phase(),
            final(self).deferred() == old(self).deferred(),
            paint ==> paint_scope_ids(drained@) == old(self).channels().1,
            !paint ==> paint_scope_ids(drained@) == old(self).channels().2,
            paint ==> final(self).channels() == (
                drained_paint_cells(old(self).cells()),
                Seq::<u64>::empty(),
                old(self).channels().2,
                old(self).channels().3,
            ),
            !paint ==> final(self).channels() == (
                drained_bits_cells(old(self).cells()),
                old(self).channels().1,
                Seq::<u64>::empty(),
                old(self).channels().3,
            ),
    {
        let mut list: Vec<u64> = Vec::new();
        if paint {
            std::mem::swap(&mut list, &mut self.needs_paint);
        } else {
            std::mem::swap(&mut list, &mut self.needs_compositing);
        }
        let ghost cells0 = self.cells();
        let ghost list0 = list@;
        proof {
            if paint {
                assert(list0 == old(self).needs_paint@);
            } else {
                assert(list0 == old(self).needs_compositing@);
            }
        }
        let mut drained: Vec<PaintScope> = Vec::new();
        let mut i: usize = 0;
        while i < list.len()
            invariant
                list@ == list0,
                list0.no_duplicates(),
                paint ==> list0 == old(self).needs_paint@,
                !paint ==> list0 == old(self).needs_compositing@,
                paint ==> self.needs_paint@ =~= Seq::<u64>::empty() && self.needs_compositing@
                    == old(self).needs_compositing@,
                !paint ==> self.needs_compositing@ =~= Seq::<u64>::empty() && self.needs_paint@
                    == old(self).needs_paint@,
                self.needs_composite == old(self).needs_composite,
                self.deferred@ == old(self).deferred@,
                self.phase == old(self).phase,
                cells0 == old(self).cells(),
                i <= list0.len(),
                drained@.len() == i,
                forall|k: int| 0 <= k < i ==> (#[trigger] drained@[k]).id() == list0[k],
                self.cells().dom() == cells0.dom(),
                cells_wf(self.cells()),
                forall|k: int| 0 <= k < list0.len() ==> cells0.dom().contains(#[trigger] list0[k]),
                forall|x: u64| #[trigger]
                    cells0.dom().contains(x) ==> self.cells()[x] == (if list0.subrange(
                        0,
                        i as int,
                    ).contains(x) {
                        if paint {
                            BoundaryCell { paint_queued: false, ..cells0[x] }
                        } else {
                            BoundaryCell { bits_queued: false, ..cells0[x] }
                        }
                    } else {
                        cells0[x]
                    }),
            decreases list0.len() - i,
        {
            let id = list[i];
            proof {
                assert(cells0.dom().contains(id));
                assert(key_shaped(id));
            }
            let ghost before = self.cells();
            let cell = self.boundaries.get(id).unwrap();
            let updated = if paint {
                BoundaryCell { paint_queued: false, ..cell }
            } else {
                BoundaryCell { bits_queued: false, ..cell }
            };
            self.boundaries.set(id, updated);
            drained.push(PaintScope(id));
            proof {
                lemma_cells_wf_insert(before, id, updated);
                assert forall|x: u64| #[trigger]
                    cells0.dom().contains(x) implies self.cells()[x] == (if list0.subrange(
                        0,
                        i + 1 as int,
                    ).contains(x) {
                        if paint {
                            BoundaryCell { paint_queued: false, ..cells0[x] }
                        } else {
                            BoundaryCell { bits_queued: false, ..cells0[x] }
                        }
                    } else {
                        cells0[x]
                    }) by {
                    let pre = list0.subrange(0, i as int);
                    let post = list0.subrange(0, i + 1 as int);
                    if x == id {
                        assert(post[i as int] == x);
                        assert(!pre.contains(x)) by {
                            if pre.contains(x) {
                                let m = choose|m: int| 0 <= m < pre.len() && pre[m] == x;
                                assert(list0[m] == list0[i as int]);
                            }
                        }
                    } else {
                        if post.contains(x) {
                            let m = choose|m: int| 0 <= m < post.len() && post[m] == x;
                            assert(pre[m] == x);
                        }
                        if pre.contains(x) {
                            let m = choose|m: int| 0 <= m < pre.len() && pre[m] == x;
                            assert(post[m] == x);
                        }
                    }
                }
            }
            i = i + 1;
        }
        proof {
            assert(list0.subrange(0, i as int) =~= list0);
            assert(paint_scope_ids(drained@) =~= list0);
            if paint {
                assert forall|x: u64| #[trigger] cells0.dom().contains(x) implies self.cells()[x]
                    == BoundaryCell { paint_queued: false, ..cells0[x] } by {
                    if !list0.contains(x) {
                        assert(!cells0[x].paint_queued);
                    }
                }
                assert(self.cells() =~= drained_paint_cells(cells0));
            } else {
                assert forall|x: u64| #[trigger] cells0.dom().contains(x) implies self.cells()[x]
                    == BoundaryCell { bits_queued: false, ..cells0[x] } by {
                    if !list0.contains(x) {
                        assert(!cells0[x].bits_queued);
                    }
                }
                assert(self.cells() =~= drained_bits_cells(cells0));
            }
            assert forall|i: int| 0 <= i < self.needs_paint@.len() implies self.cells().dom().contains(
                #[trigger] self.needs_paint@[i],
            ) && self.cells()[self.needs_paint@[i]].paint_queued by {
                assert(cells0.dom().contains(self.needs_paint@[i]));
            }
            assert forall|i: int| 0 <= i < self.needs_compositing@.len() implies self.cells().dom().contains(
                #[trigger] self.needs_compositing@[i],
            ) && self.cells()[self.needs_compositing@[i]].bits_queued by {
                assert(cells0.dom().contains(self.needs_compositing@[i]));
            }
        }
        drained
    }
}

/// The queue of deferred marks with every mark of `id` left out, in order.
pub open spec fn without_marks(marks: Seq<(u64, DeferredKind)>, id: u64) -> Seq<(u64, DeferredKind)> {
    marks.filter(|m: (u64, DeferredKind)| m.0 != id)
}

/// A copy of `marks` without the marks of `id`, in order.
fn remove_marks(marks: &Vec<(u64, DeferredKind)>, id: u64) -> (kept: Vec<(u64, DeferredKind)>)
    ensures
        kept@ == without_marks(marks@, id),
{
    let mut kept: Vec<(u64, DeferredKind)> = Vec::new();
    let mut i: usize = 0;
    while i < marks.len()
        invariant
            i <= marks.len(),
            kept@ == without_marks(marks@.subrange(0, i as int), id),
        decreases marks.len() - i,
    {
        let m = marks[i];
        proof {
            assert(marks@.subrange(0, i + 1 as int) =~= marks@.subrange(0, i as int).push(m));
            lemma_without_marks_push(marks@.subrange(0, i as int), m, id);
        }
        if m.0 != id {
            kept.push(m);
        }
        i = i + 1;
    }
    assert(marks@.subrange(0, i as int) =~= marks@);
    kept
}

proof fn lemma_without_marks_push(s: Seq<(u64, DeferredKind)>, m: (u64, DeferredKind), id: u64)
    ensures
        without_marks(s.push(m), id) == (if m.0 != id {
            without_marks(s, id).push(m)
        } else {
            without_marks(s, id)
        }),
        forall|i: int|
            0 <= i < without_marks(s, id).len() ==> s.contains(#[trigger] without_marks(s, id)[i]),
    decreases s.len(),
{
    reveal(Seq::filter);
    assert(s.push(m).drop_last() =~= s);
    if s.len() > 0 {
        lemma_without_marks_push(s.drop_last(), s.last(), id);
        assert(s =~= s.drop_last().push(s.last()));
        let g = without_marks(s.drop_last(), id);
        assert forall|i: int| 0 <= i < without_marks(s, id).len() implies s.contains(
            #[trigger] without_marks(s, id)[i],
        ) by {
            if i < g.len() {
                assert(without_marks(s, id)[i] == g[i]);
                let k = choose|k: int| 0 <= k < s.drop_last().len() && s.drop_last()[k] == g[i];
                assert(s[k] == g[i]);
            } else {
                assert(s[s.len() - 1] == without_marks(s, id)[i]);
            }
        }
    }
}

} // verus!
