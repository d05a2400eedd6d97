use vstd::prelude::*;

use crate::pipeline::order::{
    entry_before, entry_ids, ids_of, insert_rootmost_first, rootmost_first, DepthEntry,
};
use crate::manager::event::lemma_filter_keeps_order;
use crate::pipeline::order::{lemma_filter_distinct, lemma_filter_membership, lemma_filter_take_step};
use crate::pipeline::paint::{channels_clean, link_paint, PaintPipeline, PaintPipelinePhase, PaintScope};
use crate::pipeline::registry::{
    cells_wf, key_shaped, lemma_cells_wf_insert, lemma_cells_wf_remove, lemma_null_key_shaped,
    null_id, null_key_id, registry_capacity, registry_cells, BoundaryCell, BoundaryRegistry,
};

verus! {

/// Names the relayout boundary a render object is laid out under. A node forwards it to each
/// child it lays out, presents it to a pipeline to register a nested boundary or request a
/// relayout, and hands it to a [`DeferredLayoutScope`] to mark from a reconcile.
#[derive(Clone, Copy)]
pub struct LayoutScope(u64);

impl LayoutScope {
    #[verifier::type_invariant]
    spec fn shaped(self) -> bool {
        key_shaped(self.0)
    }

    /// The boundary this scope names, by the integer form of its key.
    pub closed spec fn id(self) -> u64 {
        self.0
    }

    /// A scope naming the boundary `id`.
    pub(crate) fn from_id(id: u64) -> (scope: LayoutScope)
        requires
            key_shaped(id),
        ensures
            scope.id() == id,
    {
        LayoutScope(id)
    }

    /// The integer form of the key this scope names.
    pub(crate) fn raw(&self) -> (id: u64)
        ensures
            id == self.id(),
            key_shaped(id),
    {
        proof {
            use_type_invariant(self);
        }
        self.0
    }

    /// A scope detached from any pipeline, which names no boundary.
    pub fn detached() -> (scope: LayoutScope)
        ensures
            scope.id() == null_key_id(),
    {
        let id = null_id();
        proof {
            lemma_null_key_shaped();
        }
        LayoutScope(id)
    }

    /// Whether this scope names no boundary, because it was created detached, so registering
    /// under it registers at the root.
    pub fn is_detached(&self) -> (r: bool)
        ensures
            r == (self.id() == null_key_id()),
    {
        self.0 == null_id()
    }
}

/// A [`LayoutScope`] paired with the route to mark it from outside a pipeline pass, such as a
/// reconcile that changes a layout property. The request is queued and applied on the
/// pipeline's next [`drain_deferred`](LayoutPipeline::drain_deferred); a detached marker marks
/// nothing, and one whose boundary is gone is dropped when the boundary unregisters.
#[derive(Clone, Copy)]
pub struct DeferredLayoutScope {
    id: u64,
    attached: bool,
}

impl DeferredLayoutScope {
    #[verifier::type_invariant]
    spec fn shaped(self) -> bool {
        key_shaped(self.id)
    }

    /// The boundary this marker names.
    pub closed spec fn id(self) -> u64 {
        self.id
    }

    /// Whether this marker was handed out by a pipeline, so its marks reach one.
    pub closed spec fn attached(self) -> bool {
        self.attached
    }

    /// A marker detached from any pipeline, whose marks reach nothing.
    pub fn detached() -> (marker: DeferredLayoutScope)
        ensures
            marker.id() == null_key_id(),
            !marker.attached(),
    {
        let id = null_id();
        proof {
            lemma_null_key_shaped();
        }
        DeferredLayoutScope { id, attached: false }
    }

    /// Queues this boundary to be re-laid-out on the pipeline's next frame. A detached marker
    /// leaves the queue as it is.
    pub fn mark_needs_layout(&self, pipeline: &mut LayoutPipeline)
        requires
            old(pipeline).wf(),
        ensures
            final(pipeline).wf(),
            final(pipeline).cells() == old(pipeline).cells(),
            final(pipeline).dirty() == old(pipeline).dirty(),
            final(pipeline).in_layout() == old(pipeline).in_layout(),
            final(pipeline).deferred() == (if self.attached() {
                old(pipeline).deferred().push(self.id())
            } else {
                old(pipeline).deferred()
            }),
    {
        proof {
            use_type_invariant(self);
        }
        if self.attached {
            pipeline.deferred.push(self.id);
        }
    }
}

/// The sole owner of a registered relayout boundary, held by the render object that
/// established it. While it is registered the boundary can be re-laid on its own; handing it
/// to [`LayoutPipeline::unregister`] unregisters the boundary and clears any pending re-layout.
pub struct RegisteredLayoutBoundary {
    id: u64,
}

impl RegisteredLayoutBoundary {
    #[verifier::type_invariant]
    spec fn shaped(self) -> bool {
        key_shaped(self.id)
    }

    /// The boundary this handle owns.
    pub closed spec fn id(self) -> u64 {
        self.id
    }

    /// The scope descendants mark this boundary through.
    pub fn scope(&self) -> (scope: LayoutScope)
        ensures
            scope.id() == self.id(),
    {
        proof {
            use_type_invariant(self);
        }
        LayoutScope(self.id)
    }

    /// Records that this boundary has constraints to be re-laid under, without marking it. A
    /// boundary re-laid in place by its parent keeps its constraints current this way, and
    /// that relayout satisfies any re-layout still pending on the boundary.
    pub fn update_constraints(&self, pipeline: &mut LayoutPipeline)
        requires
            old(pipeline).wf(),
        ensures
            final(pipeline).wf(),
            final(pipeline).cells() == constrained_cells(old(pipeline).cells(), self.id()),
            final(pipeline).dirty() == old(pipeline).dirty(),
            final(pipeline).deferred() == old(pipeline).deferred(),
            final(pipeline).in_layout() == old(pipeline).in_layout(),
    {
        proof {
            use_type_invariant(self);
        }
        pipeline.record_constraints(self.id);
    }

    /// Records that this boundary has constraints to be re-laid under, and marks it. A
    /// boundary constrained from outside the tree is sized this way. Returns whether the mark
    /// took the layout channel from clean to dirty, when the driver must schedule a frame.
    pub fn set_constraints(&self, pipeline: &mut LayoutPipeline) -> (requested: bool)
        requires
            old(pipeline).wf(),
            old(pipeline).cells().dom().contains(self.id()) ==> !old(pipeline).in_layout(),
        ensures
            final(pipeline).wf(),
            final(pipeline).cells() == marked_cells(
                constrained_cells(old(pipeline).cells(), self.id()),
                self.id(),
            ),
            final(pipeline).dirty() == marked_dirty(
                constrained_cells(old(pipeline).cells(), self.id()),
                old(pipeline).dirty(),
                self.id(),
            ),
            final(pipeline).deferred() == old(pipeline).deferred(),
            final(pipeline).in_layout() == old(pipeline).in_layout(),
            requested == (old(pipeline).cells().dom().contains(self.id()) && old(
                pipeline,
            ).dirty().len() == 0),
    {
        proof {
            use_type_invariant(self);
        }
        pipeline.record_constraints(self.id);
        pipeline.mark_id(self.id)
    }

    /// Requests that this boundary be re-laid-out before the next frame. Returns whether the
    /// mark took the layout channel from clean to dirty, when the driver must schedule a frame.
    pub fn mark_needs_layout(&self, pipeline: &mut LayoutPipeline) -> (requested: bool)
        requires
            old(pipeline).wf(),
            old(pipeline).cells().dom().contains(self.id()) ==> !old(pipeline).in_layout(),
        ensures
            final(pipeline).wf(),
            final(pipeline).cells() == marked_cells(old(pipeline).cells(), self.id()),
            final(pipeline).dirty() == marked_dirty(
                old(pipeline).cells(),
                old(pipeline).dirty(),
                self.id(),
            ),
            final(pipeline).deferred() == old(pipeline).deferred(),
            final(pipeline).in_layout() == old(pipeline).in_layout(),
            requested == (old(pipeline).cells().dom().contains(self.id()) && old(
                pipeline,
            ).dirty().len() == 0),
    {
        proof {
            use_type_invariant(self);
        }
        pipeline.mark_id(self.id)
    }
}

/// The record of a freshly registered boundary at `depth`, enclosed by the repaint boundary
/// `paint`: unconstrained, unmarked and unlinked.
pub open spec fn fresh_cell(depth: usize, paint: u64) -> BoundaryCell {
    BoundaryCell {
        depth,
        paint,
        constrained: false,
        needs_layout: false,
        layout_linked: false,
        paint_queued: false,
        bits_queued: false,
        capacity_commands: 0,
        capacity_brushes: 0,
        capacity_strokes: 0,
    }
}

/// The depth a boundary registered under `enclosing` takes: one below the enclosing boundary,
/// or the root depth when that boundary is not registered.
pub open spec fn nested_depth(cells: Map<u64, BoundaryCell>, enclosing: u64) -> int {
    if cells.dom().contains(enclosing) {
        cells[enclosing].depth + 1
    } else {
        0
    }
}

/// The cells after `id` is marked: a registered boundary awaits re-layout and is linked into
/// the dirty list; an unregistered one is ignored.
pub open spec fn marked_cells(cells: Map<u64, BoundaryCell>, id: u64) -> Map<u64, BoundaryCell> {
    if cells.dom().contains(id) {
        cells.insert(id, BoundaryCell { needs_layout: true, layout_linked: true, ..cells[id] })
    } else {
        cells
    }
}

/// The dirty list after `id` is marked: a registered boundary not yet linked joins its end.
pub open spec fn marked_dirty(cells: Map<u64, BoundaryCell>, dirty: Seq<u64>, id: u64) -> Seq<u64> {
    if cells.dom().contains(id) && !cells[id].layout_linked {
        dirty.push(id)
    } else {
        dirty
    }
}

/// Marking a boundary for re-layout a second time before the layout pass changes nothing more
/// than the first mark did.
pub proof fn lemma_mark_is_idempotent(cells: Map<u64, BoundaryCell>, dirty: Seq<u64>, id: u64)
    ensures
        marked_cells(marked_cells(cells, id), id) == marked_cells(cells, id),
        marked_dirty(marked_cells(cells, id), marked_dirty(cells, dirty, id), id) == marked_dirty(
            cells,
            dirty,
            id,
        ),
{
    if cells.dom().contains(id) {
        assert(marked_cells(marked_cells(cells, id), id) =~= marked_cells(cells, id));
    }
}

/// Marking a boundary that is not registered, such as one already unregistered, leaves the
/// pipeline's boundaries and dirty list as they were.
pub proof fn lemma_mark_of_unregistered_is_ignored(
    cells: Map<u64, BoundaryCell>,
    dirty: Seq<u64>,
    id: u64,
)
    requires
        !cells.dom().contains(id),
    ensures
        marked_cells(cells, id) == cells,
        marked_dirty(cells, dirty, id) == dirty,
{
}

/// The cells after `ids` are marked one after another.
pub open spec fn marked_all_cells(cells: Map<u64, BoundaryCell>, ids: Seq<u64>) -> Map<
    u64,
    BoundaryCell,
>
    decreases ids.len(),
{
    if ids.len() == 0 {
        cells
    } else {
        marked_cells(marked_all_cells(cells, ids.drop_last()), ids.last())
    }
}

/// The dirty list after `ids` are marked one after another.
pub open spec fn marked_all_dirty(cells: Map<u64, BoundaryCell>, dirty: Seq<u64>, ids: Seq<u64>) -> Seq<
    u64,
>
    decreases ids.len(),
{
    if ids.len() == 0 {
        dirty
    } else {
        marked_dirty(
            marked_all_cells(cells, ids.drop_last()),
            marked_all_dirty(cells, dirty, ids.drop_last()),
            ids.last(),
        )
    }
}

/// The cells after `id` records constraints: a registered boundary can be re-laid on its own,
/// and the relayout it was just given satisfies any pending one.
pub open spec fn constrained_cells(cells: Map<u64, BoundaryCell>, id: u64) -> Map<
    u64,
    BoundaryCell,
> {
    if cells.dom().contains(id) {
        cells.insert(id, BoundaryCell { constrained: true, needs_layout: false, ..cells[id] })
    } else {
        cells
    }
}

/// The cells once a flush has drained the dirty list: none is linked any more.
pub open spec fn unlinked_cells(cells: Map<u64, BoundaryCell>) -> Map<u64, BoundaryCell> {
    cells.map_values(|c: BoundaryCell| BoundaryCell { layout_linked: false, ..c })
}

/// Whether every boundary marked in `dirty` that is registered in `cells`, awaits re-layout and
/// has constraints has the repaint boundary enclosing it queued for repaint in `paint_cells`,
/// where that repaint boundary is registered: a re-laid subtree must repaint.
pub open spec fn enclosing_repaints_queued(
    cells: Map<u64, BoundaryCell>,
    dirty: Seq<u64>,
    paint_cells: Map<u64, BoundaryCell>,
) -> bool {
    forall|id: u64|
        #![trigger cells[id]]
        dirty.contains(id) && cells.dom().contains(id) && cells[id].needs_layout
            && cells[id].constrained && paint_cells.dom().contains(cells[id].paint)
            ==> paint_cells[cells[id].paint].paint_queued
}

/// The boundaries a run of scopes names, in order.
pub open spec fn scope_ids(scopes: Seq<LayoutScope>) -> Seq<u64> {
    scopes.map_values(|s: LayoutScope| s.id())
}

/// Whether `ids` runs rootmost-first by the depths in `cells`.
pub open spec fn sorted_by_depth(cells: Map<u64, BoundaryCell>, ids: Seq<u64>) -> bool {
    forall|i: int, j: int|
        0 <= i < j < ids.len() ==> cells[#[trigger] ids[i]].depth <= cells[#[trigger] ids[j]].depth
}

/// Re-lays the content of one relayout boundary. The driver implements it over the boundaries'
/// render objects and the constraints they last took.
pub trait RelayoutContent {
    /// The boundaries this content has re-laid so far, in order. Every implementation is meant to
    /// define it over ghost state it keeps (a `Ghost` field) and so meet the contracts below. The
    /// empty default exists only so that implementations outside verified code compile; it meets
    /// none of those contracts, and what is proved of callers holds of such an implementation only
    /// if it does what the contracts say.
    closed spec fn laid_out(&self) -> Seq<u64> {
        Seq::empty()
    }

    /// Re-lays the boundary `scope` names from the constraints it last took.
    fn layout(&mut self, scope: LayoutScope)
        ensures
            final(self).laid_out() == old(self).laid_out().push(scope.id()),
    ;
}

/// Whether a flush owes the boundary `id` a re-layout: it is registered in `cells`, awaits
/// re-layout and has constraints to be re-laid under.
pub open spec fn relayout_owed(cells: Map<u64, BoundaryCell>, id: u64) -> bool {
    cells.dom().contains(id) && cells[id].needs_layout && cells[id].constrained
}

/// Whether `relaid` re-lays, once each and rootmost-first by the depths in `cells`, exactly the
/// boundaries marked in `dirty` that are owed a re-layout.
pub open spec fn relays_owed(cells: Map<u64, BoundaryCell>, dirty: Seq<u64>, relaid: Seq<u64>) -> bool {
    &&& relaid.no_duplicates()
    &&& forall|id: u64| relaid.contains(id) <==> dirty.contains(id) && relayout_owed(cells, id)
    &&& sorted_by_depth(cells, relaid)
}

/// Lays out the relayout boundaries of one subtree, re-laying only the ones that changed.
///
/// The subtree's root is one boundary; every boundary nested inside is re-laid from the
/// constraints it last took. A change confined to a boundary re-lays just that boundary,
/// leaving the rest untouched. Mark a boundary through the [`LayoutScope`] it was given.
pub struct LayoutPipeline {
    boundaries: BoundaryRegistry,
    dirty: Vec<u64>,
    deferred: Vec<u64>,
    in_layout: bool,
}

impl LayoutPipeline {
    /// The registered boundaries, by key.
    pub closed spec fn cells(&self) -> Map<u64, BoundaryCell> {
        registry_cells(self.boundaries)
    }

    /// The boundaries linked for re-layout, in the order they were marked.
    pub closed spec fn dirty(&self) -> Seq<u64> {
        self.dirty@
    }

    /// The out-of-band marks queued since the last drain.
    pub closed spec fn deferred(&self) -> Seq<u64> {
        self.deferred@
    }

    /// Whether a layout pass is in progress.
    pub closed spec fn in_layout(&self) -> bool {
        self.in_layout
    }

    /// The pipeline's internal consistency: a boundary is linked exactly when it sits in the
    /// dirty list, once, and every recorded key has the shape of a slot map key.
    pub closed spec fn wf(&self) -> bool {
        let cells = self.cells();
        &&& cells_wf(cells)
        &&& self.dirty@.no_duplicates()
        &&& forall|i: int|
            0 <= i < self.dirty@.len() ==> cells.dom().contains(#[trigger] self.dirty@[i])
                && cells[self.dirty@[i]].layout_linked
        &&& forall|id: u64|
            #[trigger] cells.dom().contains(id) && cells[id].layout_linked ==> self.dirty@.contains(
                id,
            )
        &&& forall|id: u64| #[trigger] cells.dom().contains(id) ==> key_shaped(cells[id].paint)
        &&& forall|i: int| 0 <= i < self.deferred@.len() ==> key_shaped(#[trigger] self.deferred@[i])
    }

    /// An empty pipeline with nothing registered, marked or queued.
    pub fn new() -> (pipeline: LayoutPipeline)
        ensures
            pipeline.wf(),
            pipeline.cells() =~= Map::empty(),
            pipeline.dirty() =~= Seq::empty(),
            pipeline.deferred() =~= Seq::empty(),
            !pipeline.in_layout(),
    {
        LayoutPipeline {
            boundaries: BoundaryRegistry::new(),
            dirty: Vec::new(),
            deferred: Vec::new(),
            in_layout: false,
        }
    }

    /// Once a registered boundary is marked the layout channel is dirty, so a later mark, of
    /// that boundary or any other, does not schedule another frame before the flush.
    pub proof fn lemma_mark_leaves_channel_dirty(&self, id: u64)
        requires
            self.wf(),
            self.cells().dom().contains(id),
        ensures
            marked_dirty(self.cells(), self.dirty(), id).len() > 0,
    {
        if self.cells()[id].layout_linked {
            assert(self.dirty@.contains(id));
        }
    }

    /// Whether nothing, root or inner, is awaiting re-layout.
    pub fn is_clean(&self) -> (r: bool)
        ensures
            r == (self.dirty().len() == 0),
    {
        self.dirty.len() == 0
    }

    /// Registers `root` as the outermost boundary, enclosed by `paint`, returning the handle
    /// that owns and marks it.
    pub fn register_root(&mut self, paint: PaintScope) -> (handle: RegisteredLayoutBoundary)
        requires
            old(self).wf(),
            old(self).cells().dom().len() < registry_capacity(),
        ensures
            final(self).wf(),
            !old(self).cells().dom().contains(handle.id()),
            handle.id() != null_key_id(),
            final(self).cells() == old(self).cells().insert(handle.id(), fresh_cell(0, paint.id())),
            final(self).dirty() == old(self).dirty(),
            final(self).deferred() == old(self).deferred(),
            final(self).in_layout() == old(self).in_layout(),
    {
        self.insert(paint, 0)
    }

    /// Registers a boundary nested under `enclosing`, enclosed by `paint`, and returns the
    /// handle that owns and marks it. A boundary established during layout is registered this
    /// way so its descendants mark it rather than the boundary above. A detached or removed
    /// enclosing scope registers at depth zero.
    pub fn register_under(&mut self, enclosing: LayoutScope, paint: PaintScope) -> (handle:
        RegisteredLayoutBoundary)
        requires
            old(self).wf(),
            old(self).cells().dom().len() < registry_capacity(),
            old(self).cells().dom().contains(enclosing.id()) ==> old(self).cells()[enclosing.id()].depth
                < usize::MAX,
        ensures
            final(self).wf(),
            !old(self).cells().dom().contains(handle.id()),
            handle.id() != null_key_id(),
            final(self).cells() == old(self).cells().insert(
                handle.id(),
                fresh_cell(nested_depth(old(self).cells(), enclosing.id()) as usize, paint.id()),
            ),
            final(self).dirty() == old(self).dirty(),
            final(self).deferred() == old(self).deferred(),
            final(self).in_layout() == old(self).in_layout(),
    {
        proof {
            use_type_invariant(&enclosing);
        }
        let depth = match self.boundaries.get(enclosing.0) {
            Some(cell) => cell.depth + 1,
            None => 0,
        };
        self.insert(paint, depth)
    }

    fn insert(&mut self, paint: PaintScope, depth: usize) -> (handle: RegisteredLayoutBoundary)
        requires
            old(self).wf(),
            old(self).cells().dom().len() < registry_capacity(),
        ensures
            final(self).wf(),
            !old(self).cells().dom().contains(handle.id()),
            handle.id() != null_key_id(),
            final(self).cells() == old(self).cells().insert(handle.id(), fresh_cell(depth, paint.id())),
            final(self).dirty() == old(self).dirty(),
            final(self).deferred() == old(self).deferred(),
            final(self).in_layout() == old(self).in_layout(),
    {
        let paint_id = paint.raw();
        let cell = BoundaryCell {
            depth,
            paint: paint_id,
            constrained: false,
            needs_layout: false,
            layout_linked: false,
            paint_queued: false,
            bits_queued: false,
            capacity_commands: 0,
            capacity_brushes: 0,
            capacity_strokes: 0,
        };
        let ghost before = self.cells();
        let id = self.boundaries.insert(cell);
        proof {
            lemma_cells_wf_insert(before, id, cell);
            assert forall|i: int| 0 <= i < self.dirty@.len() implies self.cells().dom().contains(
                #[trigger] self.dirty@[i],
            ) && self.cells()[self.dirty@[i]].layout_linked by {
                assert(before.dom().contains(self.dirty@[i]));
            }
        }
        RegisteredLayoutBoundary { id }
    }

    /// Marks `scope`'s boundary for re-layout before the next frame, returning whether the mark
    /// took the layout channel from clean to dirty, when the driver must schedule a frame.
    /// Marking a boundary during a layout pass is a caller error, ruled out by `requires`.
    pub fn mark_needs_layout(&mut self, scope: LayoutScope) -> (requested: bool)
        requires
            old(self).wf(),
            old(self).cells().dom().contains(scope.id()) ==> !old(self).in_layout(),
        ensures
            final(self).wf(),
            final(self).cells() == marked_cells(old(self).cells(), scope.id()),
            final(self).dirty() == marked_dirty(old(self).cells(), old(self).dirty(), scope.id()),
            final(self).deferred() == old(self).deferred(),
            final(self).in_layout() == old(self).in_layout(),
            requested == (old(self).cells().dom().contains(scope.id()) && old(self).dirty().len()
                == 0),
    {
        proof {
            use_type_invariant(&scope);
        }
        self.mark_id(scope.0)
    }

    fn mark_id(&mut self, id: u64) -> (requested: bool)
        requires
            old(self).wf(),
            key_shaped(id),
            old(self).cells().dom().contains(id) ==> !old(self).in_layout(),
        ensures
            final(self).wf(),
            final(self).cells() == marked_cells(old(self).cells(), id),
            final(self).dirty() == marked_dirty(old(self).cells(), old(self).dirty(), id),
            final(self).deferred() == old(self).deferred(),
            final(self).in_layout() == old(self).in_layout(),
            requested == (old(self).cells().dom().contains(id) && old(self).dirty().len() == 0),
    {
        let ghost before = self.cells();
        let cell = match self.boundaries.get(id) {
            Some(cell) => cell,
            None => {
                return false;
            },
        };
        let was_clean = self.dirty.len() == 0;
        let linked = cell.layout_linked;
        self.boundaries.set(id, BoundaryCell { needs_layout: true, layout_linked: true, ..cell });
        if !linked {
            self.dirty.push(id);
        }
        proof {
            assert(self.cells() == marked_cells(before, id));
            lemma_cells_wf_insert(before, id, BoundaryCell { needs_layout: true, layout_linked: true, ..cell });
            if !linked {
                assert(!old(self).dirty@.contains(id));
            }
            assert forall|i: int| 0 <= i < self.dirty@.len() implies self.cells().dom().contains(
                #[trigger] self.dirty@[i],
            ) && self.cells()[self.dirty@[i]].layout_linked by {
                if i < old(self).dirty@.len() {
                    assert(old(self).dirty@[i] == self.dirty@[i]);
                }
            }
            assert forall|x: u64| #[trigger]
                self.cells().dom().contains(x) && self.cells()[x].layout_linked implies self.dirty@.contains(
                x,
            ) by {
                if x != id {
                    assert(old(self).dirty@.contains(x));
                    let k = choose|k: int| 0 <= k < old(self).dirty@.len() && old(self).dirty@[k] == x;
                    assert(self.dirty@[k] == x);
                } else if !linked {
                    assert(self.dirty@[self.dirty@.len() - 1] == x);
                } else {
                    assert(old(self).dirty@.contains(x));
                }
            }
        }
        was_clean
    }

    fn record_constraints(&mut self, id: u64)
        requires
            old(self).wf(),
            key_shaped(id),
        ensures
            final(self).wf(),
            final(self).cells() == constrained_cells(old(self).cells(), id),
            final(self).dirty() == old(self).dirty(),
            final(self).deferred() == old(self).deferred(),
            final(self).in_layout() == old(self).in_layout(),
    {
        let ghost before = self.cells();
        if let Some(cell) = self.boundaries.get(id) {
            let updated = BoundaryCell { constrained: true, needs_layout: false, ..cell };
            self.boundaries.set(id, updated);
            proof {
                lemma_cells_wf_insert(before, id, updated);
                assert forall|i: int| 0 <= i < self.dirty@.len() implies self.cells().dom().contains(
                    #[trigger] self.dirty@[i],
                ) && self.cells()[self.dirty@[i]].layout_linked by {
                    assert(before.dom().contains(self.dirty@[i]));
                }
            }
        }
    }

    /// A deferred handle to `scope`'s boundary, for marking it from a callback that runs with
    /// no pipeline pass in progress, such as a reconcile.
    pub fn deferred_scope(&self, scope: LayoutScope) -> (marker: DeferredLayoutScope)
        ensures
            marker.id() == scope.id(),
            marker.attached(),
    {
        proof {
            use_type_invariant(&scope);
        }
        DeferredLayoutScope { id: scope.0, attached: true }
    }

    /// Applies every out-of-band mark queued since the last drain, in the order they were
    /// queued, and empties the queue. Called once at the start of a frame, before the dirty
    /// list is flushed. Returns whether the marks took the layout channel from clean to dirty.
    pub fn drain_deferred(&mut self) -> (requested: bool)
        requires
            old(self).wf(),
            forall|i: int|
                0 <= i < old(self).deferred().len() ==> old(self).cells().dom().contains(
                    #[trigger] old(self).deferred()[i],
                ) ==> !old(self).in_layout(),
        ensures
            final(self).wf(),
            final(self).cells() == marked_all_cells(old(self).cells(), old(self).deferred()),
            final(self).dirty() == marked_all_dirty(
                old(self).cells(),
                old(self).dirty(),
                old(self).deferred(),
            ),
            final(self).deferred() =~= Seq::empty(),
            final(self).in_layout() == old(self).in_layout(),
            requested == (old(self).dirty().len() == 0 && final(self).dirty().len() > 0),
    {
        let mut queued: Vec<u64> = Vec::new();
        std::mem::swap(&mut queued, &mut self.deferred);
        let ghost start_cells = self.cells();
        let ghost start_dirty = self.dirty@;
        let mut requested = false;
        let mut i: usize = 0;
        while i < queued.len()
            invariant
                self.wf(),
                i <= queued.len(),
                queued@ == old(self).deferred(),
                start_cells == old(self).cells(),
                start_dirty == old(self).dirty(),
                self.deferred@ =~= Seq::<u64>::empty(),
                self.in_layout == old(self).in_layout(),
                self.cells() == marked_all_cells(start_cells, queued@.subrange(0, i as int)),
                self.dirty@ == marked_all_dirty(start_cells, start_dirty, queued@.subrange(0, i as int)),
                self.cells().dom() == start_cells.dom(),
                forall|k: int|
                    0 <= k < old(self).deferred().len() ==> old(self).cells().dom().contains(
                        #[trigger] old(self).deferred()[k],
                    ) ==> !old(self).in_layout(),
                forall|k: int| 0 <= k < queued@.len() ==> key_shaped(#[trigger] queued@[k]),
                requested == (start_dirty.len() == 0 && self.dirty@.len() > 0),
                start_dirty.len() > 0 ==> self.dirty@.len() > 0,
            decreases queued.len() - i,
        {
            let id = queued[i];
            let ghost prefix = queued@.subrange(0, i as int);
            let r = self.mark_id(id);
            proof {
                assert(queued@.subrange(0, i + 1 as int).drop_last() =~= prefix);
                assert(queued@.subrange(0, i + 1 as int).last() == id);
            }
            requested = requested || r;
            i = i + 1;
        }
        proof {
            assert(queued@.subrange(0, i as int) =~= queued@);
        }
        requested
    }

    /// Starts a layout pass: drains the dirty list and returns the boundaries it held,
    /// rootmost-first, so that re-laying an outer boundary, which re-lays the boundaries nested
    /// in it, lets the inner ones be skipped rather than laid out a second time. Every drained
    /// boundary is unlinked; its pending mark stays until [`take_relayout`](Self::take_relayout)
    /// or a relayout in place clears it. Marks are refused until [`end_flush`](Self::end_flush).
    pub fn begin_flush(&mut self) -> (ordered: Vec<LayoutScope>)
        requires
            old(self).wf(),
        ensures
            final(self).wf(),
            final(self).in_layout(),
            final(self).dirty() =~= Seq::empty(),
            final(self).cells() == unlinked_cells(old(self).cells()),
            final(self).deferred() == old(self).deferred(),
            scope_ids(ordered@).no_duplicates(),
            scope_ids(ordered@).to_set() == old(self).dirty().to_set(),
            sorted_by_depth(old(self).cells(), scope_ids(ordered@)),
    {
        self.in_layout = true;
        let ghost cells0 = self.cells();
        let ghost dirty0 = self.dirty@;
        let mut run: Vec<DepthEntry> = Vec::new();
        let mut i: usize = 0;
        while i < self.dirty.len()
            invariant
                self.wf(),
                self.in_layout,
                self.dirty@ == dirty0,
                self.deferred@ == old(self).deferred(),
                cells0 == old(self).cells(),
                dirty0 == old(self).dirty(),
                i <= dirty0.len(),
                rootmost_first(run@),
                forall|k: int| 0 <= k < run@.len() ==> cells0.dom().contains(#[trigger] run@[k].1)
                    && run@[k].0 == cells0[run@[k].1].depth,
                forall|x: u64| entry_ids(run@).contains(x) <==> dirty0.subrange(
                    0,
                    i as int,
                ).contains(x),
                self.cells() == cells0,
            decreases dirty0.len() - i,
        {
            let id = self.dirty[i];
            proof {
                assert(cells0.dom().contains(id));
            }
            let cell = self.boundaries.get(id).unwrap();
            let ghost run0 = run@;
            insert_rootmost_first(&mut run, (cell.depth, id));
            proof {
                assert forall|k: int| 0 <= k < run@.len() implies cells0.dom().contains(
                    #[trigger] run@[k].1,
                ) && run@[k].0 == cells0[run@[k].1].depth by {
                    assert(run@.to_set().contains(run@[k]));
                    if run@[k] != (cell.depth, id) {
                        assert(run0.to_set().contains(run@[k]));
                        let j = choose|j: int| 0 <= j < run0.len() && run0[j] == run@[k];
                    }
                }
                assert forall|x: u64| entry_ids(run@).contains(x) <==> dirty0.subrange(
                    0,
                    i + 1 as int,
                ).contains(x) by {
                    let pre = dirty0.subrange(0, i as int);
                    let post = dirty0.subrange(0, i + 1 as int);
                    if entry_ids(run@).contains(x) {
                        let k = choose|k: int| 0 <= k < run@.len() && #[trigger] entry_ids(run@)[k] == x;
                        assert(run@.to_set().contains(run@[k]));
                        if run@[k] == (cell.depth, id) {
                            assert(post[i as int] == x);
                        } else {
                            assert(run0.to_set().contains(run@[k]));
                            let j = choose|j: int| 0 <= j < run0.len() && run0[j] == run@[k];
                            assert(entry_ids(run0)[j] == x);
                            assert(entry_ids(run0).contains(x));
                            assert(pre.contains(x));
                            let m = choose|m: int| 0 <= m < pre.len() && pre[m] == x;
                            assert(post[m] == x);
                        }
                    }
                    if post.contains(x) {
                        let m = choose|m: int| 0 <= m < post.len() && post[m] == x;
                        if m == i {
                            assert(run@.to_set().contains((cell.depth, id)));
                            let k = choose|k: int| 0 <= k < run@.len() && run@[k] == (cell.depth, id);
                            assert(entry_ids(run@)[k] == x);
                        } else {
                            assert(pre[m] == x);
                            assert(entry_ids(run0).contains(x));
                            let j = choose|j: int| 0 <= j < run0.len() && #[trigger] entry_ids(run0)[j] == x;
                            assert(run0.to_set().contains(run0[j]));
                            assert(run@.to_set().contains(run0[j]));
                            let k = choose|k: int| 0 <= k < run@.len() && run@[k] == run0[j];
                            assert(entry_ids(run@)[k] == x);
                        }
                    }
                }
            }
            i = i + 1;
        }
        // Unlink every drained boundary.
        let mut j: usize = 0;
        while j < self.dirty.len()
            invariant
                self.dirty@ == dirty0,
                self.in_layout,
                dirty0.no_duplicates(),
                self.deferred@ == old(self).deferred(),
                cells0 == old(self).cells(),
                j <= dirty0.len(),
                self.cells().dom() == cells0.dom(),
                cells_wf(self.cells()),
                forall|k: int| 0 <= k < dirty0.len() ==> cells0.dom().contains(#[trigger] dirty0[k]),
                forall|x: u64| #[trigger]
                    cells0.dom().contains(x) ==> self.cells()[x] == (if dirty0.subrange(
                        0,
                        j as int,
                    ).contains(x) {
                        BoundaryCell { layout_linked: false, ..cells0[x] }
                    } else {
                        cells0[x]
                    }),
                forall|k: int| 0 <= k < dirty0.len() ==> key_shaped(#[trigger] dirty0[k]),
            decreases dirty0.len() - j,
        {
            let id = self.dirty[j];
            let ghost before = self.cells();
            let cell = self.boundaries.get(id).unwrap();
            let updated = BoundaryCell { layout_linked: false, ..cell };
            self.boundaries.set(id, updated);
            proof {
                lemma_cells_wf_insert(before, id, updated);
                assert forall|x: u64| #[trigger]
                    cells0.dom().contains(x) implies self.cells()[x] == (if dirty0.subrange(
                        0,
                        j + 1 as int,
                    ).contains(x) {
                        BoundaryCell { layout_linked: false, ..cells0[x] }
                    } else {
                        cells0[x]
                    }) by {
                    let pre = dirty0.subrange(0, j as int);
                    let post = dirty0.subrange(0, j + 1 as int);
                    if x == id {
                        assert(post[j as int] == x);
                    } else {
                        if post.contains(x) {
                            let m = choose|m: int| 0 <= m < post.len() && post[m] == x;
                            assert(pre[m] == x);
                        }
                        if pre.contains(x) {
                            let m = choose|m: int| 0 <= m < pre.len() && pre[m] == x;
                            assert(post[m] == x);
                        }
                    }
                }
            }
            j = j + 1;
        }
        self.dirty.clear();
        proof {
            assert(dirty0.subrange(0, j as int) =~= dirty0);
            assert forall|x: u64| #[trigger] cells0.dom().contains(x) implies self.cells()[x]
                == BoundaryCell { layout_linked: false, ..cells0[x] } by {
                if !dirty0.contains(x) {
                    assert(!cells0[x].layout_linked);
                }
            }
            assert(self.cells() =~= unlinked_cells(cells0));
        }
        let ids = ids_of(&run);
        let ordered = self.scopes_of(&ids, &run);
        proof {
            let mapped = scope_ids(ordered@);
            assert(mapped =~= entry_ids(run@));
            assert forall|a: int, b: int| 0 <= a < b < mapped.len() implies mapped[a] != mapped[b] by {
                assert(entry_before(run@[a], run@[b]));
            }
            assert forall|x: u64| mapped.to_set().contains(x) == dirty0.to_set().contains(x) by {
                assert(entry_ids(run@) =~= mapped);
                assert(dirty0.subrange(0, i as int) =~= dirty0);
            }
            assert(mapped.to_set() =~= dirty0.to_set());
            assert forall|a: int, b: int| 0 <= a < b < mapped.len() implies cells0[#[trigger] mapped[a]].depth
                <= cells0[#[trigger] mapped[b]].depth by {
                assert(entry_before(run@[a], run@[b]));
            }
        }
        ordered
    }

    fn scopes_of(&self, ids: &Vec<u64>, run: &Vec<DepthEntry>) -> (scopes: Vec<LayoutScope>)
        requires
            ids@ == entry_ids(run@),
            forall|k: int| 0 <= k < run@.len() ==> key_shaped(#[trigger] run@[k].1),
        ensures
            scope_ids(scopes@) == ids@,
    {
        let mut scopes: Vec<LayoutScope> = Vec::new();
        let mut k: usize = 0;
        while k < ids.len()
            invariant
                k <= ids.len(),
                ids@ == entry_ids(run@),
                forall|m: int| 0 <= m < run@.len() ==> key_shaped(#[trigger] run@[m].1),
                scopes@.len() == k,
                forall|m: int| 0 <= m < k ==> (#[trigger] scopes@[m]).id() == ids@[m],
            decreases ids.len() - k,
        {
            let id = ids[k];
            proof {
                assert(ids@[k as int] == run@[k as int].1);
            }
            scopes.push(LayoutScope(id));
            k = k + 1;
        }
        assert(scope_ids(scopes@) =~= ids@);
        scopes
    }

    /// Takes the pending relayout of one boundary the pass drained. A boundary still marked and
    /// registered has its mark cleared, and when it has constraints to re-lay from, the
    /// repaint boundary enclosing it is returned: the caller re-lays the boundary's content and
    /// then marks that repaint boundary, since the re-laid subtree's painting is stale. A
    /// boundary whose relayout an enclosing one already covered, or that was unregistered,
    /// yields nothing.
    pub fn take_relayout(&mut self, scope: LayoutScope) -> (paint: Option<PaintScope>)
        requires
            old(self).wf(),
        ensures
            final(self).wf(),
            final(self).dirty() == old(self).dirty(),
            final(self).deferred() == old(self).deferred(),
            final(self).in_layout() == old(self).in_layout(),
            ({
                let cells = old(self).cells();
                let id = scope.id();
                if cells.dom().contains(id) && cells[id].needs_layout {
                    &&& final(self).cells() == cells.insert(
                        id,
                        BoundaryCell { needs_layout: false, ..cells[id] },
                    )
                    &&& paint == (if cells[id].constrained {
                        Some(PaintScope::from_id_spec(cells[id].paint))
                    } else {
                        None
                    })
                } else {
                    &&& final(self).cells() == cells
                    &&& paint.is_none()
                }
            }),
    {
        proof {
            use_type_invariant(&scope);
        }
        let ghost before = self.cells();
        let cell = match self.boundaries.get(scope.0) {
            Some(cell) => cell,
            None => {
                return None;
            },
        };
        if !cell.needs_layout {
            return None;
        }
        let updated = BoundaryCell { needs_layout: false, ..cell };
        self.boundaries.set(scope.0, updated);
        proof {
            lemma_cells_wf_insert(before, scope.0, updated);
            assert forall|i: int| 0 <= i < self.dirty@.len() implies self.cells().dom().contains(
                #[trigger] self.dirty@[i],
            ) && self.cells()[self.dirty@[i]].layout_linked by {
                assert(before.dom().contains(self.dirty@[i]));
            }
        }
        if cell.constrained {
            Some(PaintScope::from_id(cell.paint))
        } else {
            None
        }
    }

    /// Re-lays every marked boundary from the constraints it last took, rootmost-first, leaving
    /// the rest untouched: `content` re-lays each boundary still marked and constrained, and
    /// the repaint boundary enclosing it is marked, since its painting is now stale. Returns
    /// whether those marks took the paint pipeline from clean to dirty.
    pub fn flush<C: RelayoutContent>(&mut self, paint_pipeline: &mut PaintPipeline, content: &mut C) -> (requested: bool)
        requires
            old(self).wf(),
            old(paint_pipeline).wf(),
            old(paint_pipeline).phase() == PaintPipelinePhase::Idle,
        ensures
            final(self).wf(),
            final(paint_pipeline).wf(),
            !final(self).in_layout(),
            final(self).dirty() =~= Seq::empty(),
            final(self).deferred() == old(self).deferred(),
            final(self).cells().dom() == old(self).cells().dom(),
            forall|id: u64| #[trigger]
                final(self).cells().dom().contains(id) ==> !final(self).cells()[id].layout_linked,
            forall|id: u64| #[trigger]
                final(self).cells().dom().contains(id) && old(self).dirty().contains(id)
                    ==> !final(self).cells()[id].needs_layout,
            final(paint_pipeline).phase() == PaintPipelinePhase::Idle,
            final(paint_pipeline).deferred() == old(paint_pipeline).deferred(),
            final(paint_pipeline).cells().dom() == old(paint_pipeline).cells().dom(),
            enclosing_repaints_queued(
                old(self).cells(),
                old(self).dirty(),
                final(paint_pipeline).cells(),
            ),
            requested ==> channels_clean(old(paint_pipeline).channels()),
            final(content).laid_out() == old(content).laid_out() + final(content).laid_out().skip(
                old(content).laid_out().len() as int,
            ),
            relays_owed(
                old(self).cells(),
                old(self).dirty(),
                final(content).laid_out().skip(old(content).laid_out().len() as int),
            ),
    {
        let ghost cells0 = self.cells();
        let ghost log0 = content.laid_out();
        let ghost owed = |id: u64| relayout_owed(cells0, id);
        let ordered = self.begin_flush();
        let ghost ids = scope_ids(ordered@);
        let ghost cells1 = self.cells();
        let mut requested = false;
        let mut i: usize = 0;
        while i < ordered.len()
            invariant
                self.wf(),
                paint_pipeline.wf(),
                i <= ordered.len(),
                ids == scope_ids(ordered@),
                ids.to_set() == old(self).dirty().to_set(),
                self.in_layout(),
                self.dirty() =~= Seq::<u64>::empty(),
                self.deferred() == old(self).deferred(),
                self.cells().dom() == old(self).cells().dom(),
                forall|id: u64| #[trigger]
                    self.cells().dom().contains(id) ==> !self.cells()[id].layout_linked,
                forall|k: int| 0 <= k < i ==> #[trigger] self.cells().dom().contains(ids[k])
                    ==> !self.cells()[ids[k]].needs_layout,
                paint_pipeline.phase() == PaintPipelinePhase::Idle,
                paint_pipeline.deferred() == old(paint_pipeline).deferred(),
                cells0 == old(self).cells(),
                cells1 == unlinked_cells(cells0),
                ids.no_duplicates(),
                paint_pipeline.cells().dom() == old(paint_pipeline).cells().dom(),
                forall|k: int|
                    i <= k < ids.len() && #[trigger] self.cells().dom().contains(ids[k])
                        ==> self.cells()[ids[k]] == cells1[ids[k]],
                forall|k: int|
                    0 <= k < i && cells0.dom().contains(#[trigger] ids[k]) && cells0[ids[k]].needs_layout
                        && cells0[ids[k]].constrained && paint_pipeline.cells().dom().contains(
                        cells0[ids[k]].paint,
                    ) ==> paint_pipeline.cells()[cells0[ids[k]].paint].paint_queued,
                requested ==> channels_clean(old(paint_pipeline).channels()),
                !channels_clean(old(paint_pipeline).channels()) ==> !channels_clean(paint_pipeline.channels()),
                log0 == old(content).laid_out(),
                owed == (|id: u64| relayout_owed(cells0, id)),
                content.laid_out() == log0 + ids.take(i as int).filter(owed),
                sorted_by_depth(cells0, ids),
            decreases ordered.len() - i,
        {
            let scope = ordered[i];
            let ghost before = self.cells();
            let ghost paint_before = paint_pipeline.channels();
            let ghost paint_cells_before = paint_pipeline.cells();
            proof {
                paint_pipeline.lemma_channels_hold_cells();
                assert(scope.id() == ids[i as int]);
                lemma_filter_take_step(ids, owed, i as int);
                if self.cells().dom().contains(ids[i as int]) {
                    assert(self.cells()[ids[i as int]] == cells1[ids[i as int]]);
                }
            }
            if let Some(paint) = self.take_relayout(scope) {
                content.layout(scope);
                let r = paint_pipeline.mark_needs_paint(paint);
                proof {
                    paint_pipeline.lemma_channels_hold_cells();
                    PaintScope::lemma_from_id_names(cells1[scope.id()].paint);
                    assert forall|k: int|
                        0 <= k < i + 1 && cells0.dom().contains(#[trigger] ids[k])
                            && cells0[ids[k]].needs_layout && cells0[ids[k]].constrained
                            && paint_pipeline.cells().dom().contains(cells0[ids[k]].paint)
                            implies paint_pipeline.cells()[cells0[ids[k]].paint].paint_queued by {
                        let p = cells0[ids[k]].paint;
                        if k < i {
                            assert(paint_cells_before[p].paint_queued);
                        } else {
                            assert(cells1[ids[k]].paint == p);
                        }
                    }
                    if !channels_clean(paint_before) {
                        assert(!channels_clean(paint_pipeline.channels()));
                    }
                    if r {
                        assert(channels_clean(paint_before));
                    }
                }
                requested = requested || r;
            }
            proof {
                assert forall|k: int| 0 <= k < i + 1 && #[trigger] self.cells().dom().contains(ids[k])
                    implies !self.cells()[ids[k]].needs_layout by {
                    if k < i && ids[k] != scope.id() {
                        assert(before.dom().contains(ids[k]) ==> !before[ids[k]].needs_layout);
                    }
                }
            }
            i = i + 1;
        }
        self.end_flush();
        proof {
            assert forall|id: u64| #[trigger]
                self.cells().dom().contains(id) && old(self).dirty().contains(id) implies !self.cells()[id].needs_layout by {
                assert(old(self).dirty().to_set().contains(id));
                assert(ids.to_set().contains(id));
                let k = choose|k: int| 0 <= k < ids.len() && ids[k] == id;
            }
            assert forall|id: u64|
                #![trigger cells0[id]]
                old(self).dirty().contains(id) && cells0.dom().contains(id) && cells0[id].needs_layout
                    && cells0[id].constrained && paint_pipeline.cells().dom().contains(cells0[id].paint)
                    implies paint_pipeline.cells()[cells0[id].paint].paint_queued by {
                assert(old(self).dirty().to_set().contains(id));
                assert(ids.to_set().contains(id));
                let k = choose|k: int| 0 <= k < ids.len() && ids[k] == id;
                assert(cells0.dom().contains(ids[k]));
            }
            let relaid = ids.filter(owed);
            assert(ids.take(ids.len() as int) =~= ids);
            assert(content.laid_out().skip(log0.len() as int) =~= relaid);
            lemma_filter_distinct(ids, owed);
            assert forall|id: u64| relaid.contains(id) <==> old(self).dirty().contains(id)
                && relayout_owed(cells0, id) by {
                lemma_filter_membership(ids, owed, id);
                assert(ids.contains(id) <==> ids.to_set().contains(id));
                assert(old(self).dirty().contains(id) <==> old(self).dirty().to_set().contains(id));
            }
            assert forall|a: int, b: int| 0 <= a < b < relaid.len() implies cells0[
                #[trigger] relaid[a]].depth <= cells0[#[trigger] relaid[b]].depth by {
                lemma_filter_keeps_order(ids, owed, a, b);
            }
        }
        requested
    }

    /// Ends a layout pass, so marks are accepted again.
    pub fn end_flush(&mut self)
        requires
            old(self).wf(),
        ensures
            final(self).wf(),
            !final(self).in_layout(),
            final(self).cells() == old(self).cells(),
            final(self).dirty() == old(self).dirty(),
            final(self).deferred() == old(self).deferred(),
    {
        self.in_layout = false;
    }

    /// Unregisters the boundary `handle` owns: it can no longer be re-laid on its own, so it
    /// leaves the registry, the dirty list and the queue of deferred marks.
    pub fn unregister(&mut self, handle: RegisteredLayoutBoundary)
        requires
            old(self).wf(),
        ensures
            final(self).wf(),
            final(self).cells() == old(self).cells().remove(handle.id()),
            final(self).dirty() == without(old(self).dirty(), handle.id()),
            final(self).deferred() == without(old(self).deferred(), handle.id()),
            final(self).in_layout() == old(self).in_layout(),
    {
        proof {
            use_type_invariant(&handle);
        }
        let id = handle.id;
        let ghost before = self.cells();
        self.boundaries.remove(id);
        proof {
            lemma_cells_wf_remove(before, id);
        }
        let dirty = remove_all(&self.dirty, id);
        self.dirty = dirty;
        let deferred = remove_all(&self.deferred, id);
        self.deferred = deferred;
        proof {
            let d0 = old(self).dirty@;
            lemma_filter_without(d0, id);
            lemma_filter_without(old(self).deferred@, id);
            assert forall|i: int| 0 <= i < self.dirty@.len() implies self.cells().dom().contains(
                #[trigger] self.dirty@[i],
            ) && self.cells()[self.dirty@[i]].layout_linked by {
                let k = choose|k: int| 0 <= k < d0.len() && d0[k] == self.dirty@[i];
            }
            assert forall|x: u64| #[trigger]
                self.cells().dom().contains(x) && self.cells()[x].layout_linked implies self.dirty@.contains(
                x,
            ) by {
                assert(d0.contains(x));
            }
            assert forall|i: int| 0 <= i < self.deferred@.len() implies key_shaped(
                #[trigger] self.deferred@[i],
            ) by {
                let k = choose|k: int| 0 <= k < old(self).deferred@.len() && old(self).deferred@[k]
                    == self.deferred@[i];
            }
        }
    }
}

/// A copy of `ids` without `id`, in order.
pub fn remove_all(ids: &Vec<u64>, id: u64) -> (kept: Vec<u64>)
    ensures
        kept@ == without(ids@, id),
{
    let mut kept: Vec<u64> = Vec::new();
    let mut i: usize = 0;
    while i < ids.len()
        invariant
            i <= ids.len(),
            kept@ == without(ids@.subrange(0, i as int), id),
        decreases ids.len() - i,
    {
        let x = ids[i];
        proof {
            assert(ids@.subrange(0, i + 1 as int) =~= ids@.subrange(0, i as int).push(x));
            lemma_without_push(ids@.subrange(0, i as int), x, id);
        }
        if x != id {
            kept.push(x);
        }
        i = i + 1;
    }
    assert(ids@.subrange(0, i as int) =~= ids@);
    kept
}

/// Leaving `id` out of a sequence grown by `x` leaves it out of the shorter one, then keeps
/// `x` unless it is `id`.
pub proof fn lemma_without_push(s: Seq<u64>, x: u64, id: u64)
    ensures
        without(s.push(x), id) == (if x != id {
            without(s, id).push(x)
        } else {
            without(s, id)
        }),
{
    reveal(Seq::filter);
    assert(s.push(x).drop_last() =~= s);
}

/// `s` with every occurrence of `id` left out, in order.
pub open spec fn without(s: Seq<u64>, id: u64) -> Seq<u64> {
    s.filter(|x: u64| x != id)
}

/// What filtering `id` out of `s` keeps: every other element, in order, and nothing else.
pub proof fn lemma_filter_without(s: Seq<u64>, id: u64)
    ensures
        forall|i: int|
            0 <= i < without(s, id).len() ==> #[trigger] without(s, id)[i]
                != id && s.contains(without(s, id)[i]),
        forall|x: u64| s.contains(x) && x != id ==> #[trigger] without(s, id).contains(x),
        s.no_duplicates() ==> without(s, id).no_duplicates(),
    decreases s.len(),
{
    reveal(Seq::filter);
    let f = without(s, id);
    if s.len() > 0 {
        let rest = s.drop_last();
        let g = without(rest, id);
        lemma_filter_without(rest, id);
        assert(s =~= rest.push(s.last()));
        lemma_without_push(rest, s.last(), id);
        assert forall|i: int| 0 <= i < f.len() implies #[trigger] f[i] != id && s.contains(f[i]) by {
            if i < g.len() {
                assert(f[i] == g[i]);
                let k = choose|k: int| 0 <= k < rest.len() && rest[k] == g[i];
                assert(s[k] == f[i]);
            } else {
                assert(f[i] == s.last());
                assert(s[s.len() - 1] == f[i]);
            }
        }
        assert forall|x: u64| s.contains(x) && x != id implies #[trigger] f.contains(x) by {
            let k = choose|k: int| 0 <= k < s.len() && s[k] == x;
            if k < rest.len() {
                assert(rest[k] == x);
                assert(g.contains(x));
                let m = choose|m: int| 0 <= m < g.len() && g[m] == x;
                assert(f[m] == x);
            } else {
                assert(f[f.len() - 1] == x);
            }
        }
        if s.no_duplicates() {
            assert(rest.no_duplicates());
            assert forall|a: int, b: int| 0 <= a < b < f.len() implies f[a] != f[b] by {
                if b < g.len() {
                    assert(f[a] == g[a] && f[b] == g[b]);
                } else {
                    assert(f[b] == s.last());
                    assert(f[a] == g[a]);
                    let k = choose|k: int| 0 <= k < rest.len() && rest[k] == g[a];
                    assert(s[k] == g[a]);
                }
            }
        }
    }
}

/// Marks leave the registered boundaries as they were: marking only flags boundaries already
/// registered.
pub proof fn lemma_marks_keep_registry(cells: Map<u64, BoundaryCell>, marks: Seq<u64>)
    ensures
        marked_all_cells(cells, marks).dom() == cells.dom(),
        forall|x: u64| #[trigger] cells.dom().contains(x) ==> marked_all_cells(cells, marks)[x].constrained == cells[x].constrained,
    decreases marks.len(),
{
    if marks.len() > 0 {
        lemma_marks_keep_registry(cells, marks.drop_last());
        let before = marked_all_cells(cells, marks.drop_last());
        if before.dom().contains(marks.last()) {
            assert(marked_all_cells(cells, marks).dom() =~= before.dom());
        }
    }
}

/// A boundary once unregistered is never re-laid again: whatever marks follow, a flush of
/// the state they leave re-lays it nowhere.
pub proof fn lemma_unregistered_is_never_relaid(
    cells: Map<u64, BoundaryCell>,
    id: u64,
    marks: Seq<u64>,
    dirty: Seq<u64>,
    relaid: Seq<u64>,
)
    requires
        relays_owed(marked_all_cells(cells.remove(id), marks), dirty, relaid),
    ensures
        !relaid.contains(id),
{
    lemma_marks_keep_registry(cells.remove(id), marks);
}

/// Marks keep every linked boundary on the dirty list, and leave each marked registered
/// boundary awaiting re-layout and listed.
pub proof fn lemma_marks_list_marked(cells: Map<u64, BoundaryCell>, dirty: Seq<u64>, marks: Seq<u64>)
    requires
        forall|x: u64| #[trigger] cells.dom().contains(x) && cells[x].layout_linked ==> dirty.contains(x),
    ensures
        forall|x: u64|
            #[trigger] marked_all_cells(cells, marks).dom().contains(x) && marked_all_cells(cells, marks)[x].layout_linked
                ==> marked_all_dirty(cells, dirty, marks).contains(x),
        forall|k: int|
            0 <= k < marks.len() && cells.dom().contains(#[trigger] marks[k]) ==> marked_all_cells(cells, marks)[marks[k]].needs_layout
                && marked_all_dirty(cells, dirty, marks).contains(marks[k]),
    decreases marks.len(),
{
    if marks.len() > 0 {
        let rest = marks.drop_last();
        lemma_marks_list_marked(cells, dirty, rest);
        lemma_marks_keep_registry(cells, rest);
        let c = marked_all_cells(cells, rest);
        let d = marked_all_dirty(cells, dirty, rest);
        let id = marks.last();
        let c2 = marked_all_cells(cells, marks);
        let d2 = marked_all_dirty(cells, dirty, marks);
        assert(c2 == marked_cells(c, id));
        assert(d2 == marked_dirty(c, d, id));
        assert forall|x: u64| #[trigger] d.contains(x) implies d2.contains(x) by {
            if c.dom().contains(id) && !c[id].layout_linked {
                let k = choose|k: int| 0 <= k < d.len() && d[k] == x;
                assert(d2[k] == x);
            }
        }
        if c.dom().contains(id) && !c[id].layout_linked {
            assert(d2[d.len() as int] == id);
        }
        assert forall|k: int| 0 <= k < marks.len() && cells.dom().contains(#[trigger] marks[k]) implies c2[marks[k]].needs_layout
            && d2.contains(marks[k]) by {
            if k < marks.len() - 1 {
                assert(marks[k] == rest[k]);
            }
        }
    }
}

/// A deferred layout mark of a registered boundary whose constraints are set re-lays that
/// boundary exactly once on the next frame: draining the marks and flushing re-lays it, and
/// never twice.
pub proof fn lemma_deferred_mark_relays_once(
    cells: Map<u64, BoundaryCell>,
    dirty: Seq<u64>,
    deferred: Seq<u64>,
    id: u64,
    relaid: Seq<u64>,
)
    requires
        forall|x: u64| #[trigger] cells.dom().contains(x) && cells[x].layout_linked ==> dirty.contains(x),
        cells.dom().contains(id),
        cells[id].constrained,
        deferred.contains(id),
        relays_owed(marked_all_cells(cells, deferred), marked_all_dirty(cells, dirty, deferred), relaid),
    ensures
        relaid.contains(id),
        relaid.no_duplicates(),
{
    lemma_marks_list_marked(cells, dirty, deferred);
    lemma_marks_keep_registry(cells, deferred);
    let k = choose|k: int| 0 <= k < deferred.len() && deferred[k] == id;
    assert(deferred[k] == id);
}

impl LayoutPipeline {
    /// Every boundary linked into the dirty list is on it.
    pub proof fn lemma_linked_are_dirty(&self)
        requires
            self.wf(),
        ensures
            forall|x: u64| #[trigger] self.cells().dom().contains(x) && self.cells()[x].layout_linked ==> self.dirty().contains(x),
    {
    }
}

} // verus!
