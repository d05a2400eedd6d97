use vstd::prelude::*;

use crate::pipeline::layout::LayoutScope;
use crate::pipeline::order::{
    entry_ids, ids_of, lemma_rootmost_first_ids_distinct, rootmost_first, sort_rootmost_first,
    DepthEntry,
};
use crate::pipeline::paint::PaintScope;
use super::RenderPipeline;
use crate::pipeline::registry::{
    cells_wf, key_shaped, lemma_cells_wf_insert, lemma_cells_wf_remove, lemma_null_key_shaped,
    null_id, null_key_id, registry_capacity, registry_cells, BoundaryCell, BoundaryRegistry,
};

verus! {

/// The depth a boundary drains at: its own when registered, the root depth once it is gone.
pub open spec fn drain_depth(cells: Map<u64, BoundaryCell>, id: u64) -> usize {
    if cells.dom().contains(id) {
        cells[id].depth
    } else {
        0
    }
}

/// Whether `ids` run rootmost-first by the depths in `cells`, ties broken by id, with no id
/// repeated.
pub open spec fn drains_rootmost_first(cells: Map<u64, BoundaryCell>, ids: Seq<u64>) -> bool {
    rootmost_first(ids.map_values(|id: u64| (drain_depth(cells, id), id)))
}

/// The record of a freshly registered relayout boundary at `depth`, enclosed by no repaint
/// boundary yet.
pub open spec fn fresh_relayout_cell(depth: usize) -> BoundaryCell {
    BoundaryCell {
        depth,
        paint: null_key_id(),
        constrained: false,
        needs_layout: false,
        layout_linked: false,
        paint_queued: false,
        bits_queued: false,
        capacity_commands: 0,
        capacity_brushes: 0,
        capacity_strokes: 0,
    }
}

/// The sole owner of a registered relayout boundary, held by the render object that
/// established it. Handing it to
/// [`RenderPipeline::unregister_layout_boundary`](super::RenderPipeline::unregister_layout_boundary)
/// unregisters the boundary.
pub struct LayoutBoundaryHandle {
    id: u64,
    paint: PaintScope,
}

impl LayoutBoundaryHandle {
    #[verifier::type_invariant]
    spec fn shaped(self) -> bool {
        key_shaped(self.id)
    }

    /// The boundary this handle owns.
    pub closed spec fn id(self) -> u64 {
        self.id
    }

    /// The enclosing repaint boundary last written to the boundary's record.
    pub closed spec fn paint(self) -> PaintScope {
        self.paint
    }

    /// The scope descendants mark this boundary through.
    pub fn scope(&self) -> (scope: LayoutScope)
        ensures
            scope.id() == self.id(),
    {
        proof {
            use_type_invariant(self);
        }
        LayoutScope::from_id(self.id)
    }

    /// Records the repaint boundary enclosing this one, so a re-lay can mark it for repaint.
    /// The render object that established this boundary calls it during paint, where the
    /// enclosing repaint boundary is known; repeating the last value changes nothing.
    pub fn set_paint_scope(&mut self, pipeline: &mut RenderPipeline, paint: PaintScope)
        requires
            old(pipeline).wf(),
        ensures
            final(pipeline).wf(),
            final(self).id() == old(self).id(),
            final(self).paint() == paint,
            final(pipeline).layout().cells() == (if old(self).paint() != paint && old(
                pipeline,
            ).layout().cells().dom().contains(old(self).id()) {
                old(pipeline).layout().cells().insert(
                    old(self).id(),
                    BoundaryCell { paint: paint.id(), ..old(pipeline).layout().cells()[old(self).id()] },
                )
            } else {
                old(pipeline).layout().cells()
            }),
            final(pipeline).layout().dirty() == old(pipeline).layout().dirty(),
            final(pipeline).layout().deferred() == old(pipeline).layout().deferred(),
            final(pipeline).layout().flushing() == old(pipeline).layout().flushing(),
            final(pipeline).paint() == old(pipeline).paint(),
            final(pipeline).phase() == old(pipeline).phase(),
            final(pipeline).frame_requested() == old(pipeline).frame_requested(),
    {
        pipeline.layout.set_paint_scope(self, paint);
    }

    /// Requests that this boundary be re-laid before the next frame, as
    /// [`RenderPipeline::mark_needs_layout`] does for its scope.
    pub fn mark_needs_layout(&self, pipeline: &mut RenderPipeline)
        requires
            old(pipeline).wf(),
            old(pipeline).phase().runs_no_later_than(crate::pipeline::phase::FramePhase::Layout),
            old(pipeline).layout().cells().dom().contains(self.id()) ==> !old(
                pipeline,
            ).layout().flushing(),
        ensures
            final(pipeline).wf(),
            final(pipeline).layout().dirty() == (if old(pipeline).layout().cells().dom().contains(
                self.id(),
            ) {
                old(pipeline).layout().dirty().push(self.id())
            } else {
                old(pipeline).layout().dirty()
            }),
            final(pipeline).layout().cells() == old(pipeline).layout().cells(),
            final(pipeline).layout().deferred() == old(pipeline).layout().deferred(),
            final(pipeline).paint() == old(pipeline).paint(),
            final(pipeline).phase() == old(pipeline).phase(),
            final(pipeline).frame_requested() == (old(pipeline).frame_requested() || old(
                pipeline,
            ).layout().cells().dom().contains(self.id())),
    {
        pipeline.mark_needs_layout(self.scope());
    }
}

/// A [`LayoutScope`] paired with the route to mark it from outside a pipeline pass, such as a
/// reconcile that changes a layout property. The request is applied on the pipeline's next
/// layout flush; a detached marker marks nothing, and one whose boundary is gone is skipped.
#[derive(Clone, Copy)]
pub struct DeferredLayoutScope {
    id: u64,
    attached: bool,
}

impl DeferredLayoutScope {
    #[verifier::type_invariant]
    spec fn shaped(self) -> bool {
        key_shaped(self.id)
    }

    /// The boundary this marker names.
    pub closed spec fn id(self) -> u64 {
        self.id
    }

    /// Whether this marker was handed out by a pipeline, so its marks reach one.
    pub closed spec fn attached(self) -> bool {
        self.attached
    }

    /// A marker detached from any pipeline, whose marks reach nothing.
    pub fn detached() -> (marker: DeferredLayoutScope)
        ensures
            marker.id() == null_key_id(),
            !marker.attached(),
    {
        let id = null_id();
        proof {
            lemma_null_key_shaped();
        }
        DeferredLayoutScope { id, attached: false }
    }

    /// Queues this boundary to be re-laid on the pipeline's next layout flush.
    pub fn mark_needs_layout(&self, pipeline: &mut RenderPipeline)
        requires
            old(pipeline).wf(),
        ensures
            final(pipeline).wf(),
            final(pipeline).layout().cells() == old(pipeline).layout().cells(),
            final(pipeline).layout().dirty() == old(pipeline).layout().dirty(),
            final(pipeline).layout().flushing() == old(pipeline).layout().flushing(),
            final(pipeline).layout().deferred() == (if self.attached() {
                old(pipeline).layout().deferred().push(self.id())
            } else {
                old(pipeline).layout().deferred()
            }),
            final(pipeline).paint() == old(pipeline).paint(),
            final(pipeline).phase() == old(pipeline).phase(),
            final(pipeline).frame_requested() == old(pipeline).frame_requested(),
    {
        proof {
            use_type_invariant(self);
        }
        if self.attached {
            pipeline.layout.deferred.push(self.id);
        }
    }
}

/// The layout boundaries of one tree and their pending re-lays.
pub struct LayoutState {
    registry: BoundaryRegistry,
    dirty: Vec<u64>,
    deferred: Vec<u64>,
    flushing: bool,
}

impl LayoutState {
    /// The registered boundaries, by key.
    pub closed spec fn cells(&self) -> Map<u64, BoundaryCell> {
        registry_cells(self.registry)
    }

    /// The boundaries marked since the last flush, in order, repeats and stale ones included.
    pub closed spec fn dirty(&self) -> Seq<u64> {
        self.dirty@
    }

    /// The out-of-band marks queued since the last flush.
    pub closed spec fn deferred(&self) -> Seq<u64> {
        self.deferred@
    }

    /// Whether a layout flush holds the marks.
    pub closed spec fn flushing(&self) -> bool {
        self.flushing
    }

    /// Every recorded key has the shape of a slot map key.
    pub closed spec fn wf(&self) -> bool {
        &&& cells_wf(self.cells())
        &&& forall|i: int| 0 <= i < self.dirty@.len() ==> key_shaped(#[trigger] self.dirty@[i])
        &&& forall|i: int| 0 <= i < self.deferred@.len() ==> key_shaped(#[trigger] self.deferred@[i])
        &&& forall|id: u64| #[trigger] self.cells().dom().contains(id) ==> key_shaped(self.cells()[id].paint)
    }

    /// A state with nothing registered or marked.
    pub fn new() -> (state: LayoutState)
        ensures
            state.wf(),
            state.cells() =~= Map::empty(),
            state.dirty() =~= Seq::empty(),
            state.deferred() =~= Seq::empty(),
            !state.flushing(),
    {
        LayoutState {
            registry: BoundaryRegistry::new(),
            dirty: Vec::new(),
            deferred: Vec::new(),
            flushing: false,
        }
    }

    /// Registers a relayout boundary nested under `enclosing`, returning the handle that owns
    /// and unregisters it. The enclosing repaint boundary is recorded later, at paint, through
    /// [`set_paint_scope`](Self::set_paint_scope).
    pub fn register(&mut self, enclosing: LayoutScope) -> (handle: LayoutBoundaryHandle)
        requires
            old(self).wf(),
            old(self).cells().dom().len() < registry_capacity(),
            old(self).cells().dom().contains(enclosing.id()) ==> old(self).cells()[enclosing.id()].depth
                < usize::MAX,
        ensures
            final(self).wf(),
            !old(self).cells().dom().contains(handle.id()),
            handle.id() != null_key_id(),
            handle.paint().id() == null_key_id(),
            final(self).cells() == old(self).cells().insert(
                handle.id(),
                fresh_relayout_cell(
                    (if old(self).cells().dom().contains(enclosing.id()) {
                        old(self).cells()[enclosing.id()].depth + 1
                    } else {
                        0
                    }) as usize,
                ),
            ),
            final(self).dirty() == old(self).dirty(),
            final(self).deferred() == old(self).deferred(),
            final(self).flushing() == old(self).flushing(),
    {
        let enclosing_id = enclosing.raw();
        let depth = match self.registry.get(enclosing_id) {
            Some(cell) => cell.depth + 1,
            None => 0,
        };
        let paint = PaintScope::detached();
        let null = null_id();
        let cell = BoundaryCell {
            depth,
            paint: null,
            constrained: false,
            needs_layout: false,
            layout_linked: false,
            paint_queued: false,
            bits_queued: false,
            capacity_commands: 0,
            capacity_brushes: 0,
            capacity_strokes: 0,
        };
        let ghost before = self.cells();
        let id = self.registry.insert(cell);
        proof {
            lemma_cells_wf_insert(before, id, cell);
            lemma_null_key_shaped();
        }
        LayoutBoundaryHandle { id, paint }
    }

    /// A deferred handle to `scope`'s boundary, for marking it from a callback that holds no
    /// pipeline, such as a reconcile or a per-frame animation.
    pub fn deferred_scope(&self, scope: LayoutScope) -> (marker: DeferredLayoutScope)
        ensures
            marker.id() == scope.id(),
            marker.attached(),
    {
        let id = scope.raw();
        DeferredLayoutScope { id, attached: true }
    }

    /// Marks `id` for re-layout, returning whether a registered boundary was marked; a mark of
    /// a boundary already gone is ignored. Marking a registered boundary while a flush holds
    /// the marks is a caller error, ruled out by `requires`.
    pub fn mark(&mut self, scope: LayoutScope) -> (marked: bool)
        requires
            old(self).wf(),
            old(self).cells().dom().contains(scope.id()) ==> !old(self).flushing(),
        ensures
            final(self).wf(),
            marked == old(self).cells().dom().contains(scope.id()),
            final(self).dirty() == (if marked {
                old(self).dirty().push(scope.id())
            } else {
                old(self).dirty()
            }),
            final(self).cells() == old(self).cells(),
            final(self).deferred() == old(self).deferred(),
            final(self).flushing() == old(self).flushing(),
    {
        let id = scope.raw();
        if self.registry.get(id).is_none() {
            return false;
        }
        self.dirty.push(id);
        proof {
            assert forall|i: int| 0 <= i < self.dirty@.len() implies key_shaped(
                #[trigger] self.dirty@[i],
            ) by {
                if i < old(self).dirty@.len() {
                    assert(old(self).dirty@[i] == self.dirty@[i]);
                }
            }
        }
        true
    }

    /// Starts a layout flush: folds the out-of-band marks into the marks made in pass, and
    /// returns every boundary they name once, rootmost-first, ties broken by id. A boundary
    /// dropped since it was marked drains at the root depth and is skipped by
    /// [`take_relayout`](Self::take_relayout). The marks are held until
    /// [`end_flush`](Self::end_flush).
    pub fn begin_flush(&mut self) -> (ordered: Vec<LayoutScope>)
        requires
            old(self).wf(),
        ensures
            final(self).wf(),
            final(self).flushing(),
            final(self).cells() == old(self).cells(),
            final(self).dirty() =~= Seq::empty(),
            final(self).deferred() =~= Seq::empty(),
            ordered@.map_values(|s: LayoutScope| s.id()).to_set() == (old(self).dirty() + old(
                self,
            ).deferred()).to_set(),
            drains_rootmost_first(old(self).cells(), ordered@.map_values(|s: LayoutScope| s.id())),
    {
        let ghost cells0 = self.cells();
        let ghost all = self.dirty@ + self.deferred@;
        let mut entries: Vec<DepthEntry> = Vec::new();
        let mut i: usize = 0;
        let mut source: Vec<u64> = Vec::new();
        std::mem::swap(&mut source, &mut self.dirty);
        let mut queued: Vec<u64> = Vec::new();
        std::mem::swap(&mut queued, &mut self.deferred);
        source.append(&mut queued);
        proof {
            assert(source@ =~= all);
        }
        while i < source.len()
            invariant
                i <= source.len(),
                source@ == all,
                self.cells() == cells0,
                cells_wf(cells0),
                forall|k: int| 0 <= k < all.len() ==> key_shaped(#[trigger] all[k]),
                entries@.len() == i,
                forall|k: int| 0 <= k < i ==> #[trigger] entries@[k] == (drain_depth(cells0, all[k]), all[k]),
            decreases source.len() - i,
        {
            let id = source[i];
            let depth = match self.registry.get(id) {
                Some(cell) => cell.depth,
                None => 0,
            };
            entries.push((depth, id));
            i = i + 1;
        }
        let run = sort_rootmost_first(&entries);
        let ids = ids_of(&run);
        let mut ordered: Vec<LayoutScope> = Vec::new();
        let mut j: usize = 0;
        while j < ids.len()
            invariant
                j <= ids.len(),
                ids@ == entry_ids(run@),
                run@.to_set() == entries@.to_set(),
                entries@.len() == all.len(),
                forall|k: int| 0 <= k < all.len() ==> key_shaped(#[trigger] all[k]),
                forall|k: int| 0 <= k < entries@.len() ==> #[trigger] entries@[k] == (drain_depth(cells0, all[k]), all[k]),
                ordered@.len() == j,
                forall|m: int| 0 <= m < j ==> (#[trigger] ordered@[m]).id() == ids@[m],
            decreases ids.len() - j,
        {
            let id = ids[j];
            proof {
                assert(run@.to_set().contains(run@[j as int]));
                let k = choose|k: int| 0 <= k < entries@.len() && entries@[k] == run@[j as int];
                assert(id == all[k]);
            }
            ordered.push(LayoutScope::from_id(id));
            j = j + 1;
        }
        self.flushing = true;
        proof {
            let mapped = ordered@.map_values(|s: LayoutScope| s.id());
            assert(mapped =~= entry_ids(run@));
            assert forall|k: int| 0 <= k < run@.len() implies (#[trigger] run@[k]) == (drain_depth(cells0, run@[k].1), run@[k].1) by {
                assert(run@.to_set().contains(run@[k]));
                let m = choose|m: int| 0 <= m < entries@.len() && entries@[m] == run@[k];
            }
            assert(mapped.map_values(|id: u64| (drain_depth(cells0, id), id)) =~= run@);
            assert forall|x: u64| mapped.to_set().contains(x) == all.to_set().contains(x) by {
                if mapped.to_set().contains(x) {
                    let k = choose|k: int| 0 <= k < mapped.len() && mapped[k] == x;
                    assert(run@.to_set().contains(run@[k]));
                    let m = choose|m: int| 0 <= m < entries@.len() && entries@[m] == run@[k];
                    assert(all[m] == x);
                }
                if all.to_set().contains(x) {
                    let m = choose|m: int| 0 <= m < all.len() && all[m] == x;
                    assert(entries@.to_set().contains(entries@[m]));
                    let k = choose|k: int| 0 <= k < run@.len() && run@[k] == entries@[m];
                    assert(mapped[k] == x);
                }
            }
            assert(mapped.to_set() =~= all.to_set());
        }
        ordered
    }

    /// Takes the relayout of one boundary the flush drained: the repaint boundary enclosing it
    /// when it is still registered, which the caller marks once it has re-laid the boundary,
    /// since the re-laid subtree's painting is stale; nothing for a boundary dropped since it
    /// was marked.
    pub fn take_relayout(&self, scope: LayoutScope) -> (paint: Option<PaintScope>)
        requires
            self.wf(),
        ensures
            paint == (if self.cells().dom().contains(scope.id()) {
                Some(PaintScope::from_id_spec(self.cells()[scope.id()].paint))
            } else {
                None
            }),
    {
        let id = scope.raw();
        match self.registry.get(id) {
            Some(cell) => Some(PaintScope::from_id(cell.paint)),
            None => None,
        }
    }

    /// Ends a layout flush, releasing the marks.
    pub fn end_flush(&mut self)
        requires
            old(self).wf(),
        ensures
            final(self).wf(),
            !final(self).flushing(),
            final(self).cells() == old(self).cells(),
            final(self).dirty() == old(self).dirty(),
            final(self).deferred() == old(self).deferred(),
    {
        self.flushing = false;
    }

    /// Records the repaint boundary enclosing `handle`'s, so a re-lay can mark it for repaint.
    /// Repeating the value the handle last wrote leaves everything as it is.
    pub fn set_paint_scope(&mut self, handle: &mut LayoutBoundaryHandle, paint: PaintScope)
        requires
            old(self).wf(),
        ensures
            final(self).wf(),
            final(handle).id() == old(handle).id(),
            final(handle).paint() == paint,
            final(self).cells() == (if old(handle).paint() != paint && old(self).cells().dom().contains(
                old(handle).id(),
            ) {
                old(self).cells().insert(
                    old(handle).id(),
                    BoundaryCell { paint: paint.id(), ..old(self).cells()[old(handle).id()] },
                )
            } else {
                old(self).cells()
            }),
            final(self).dirty() == old(self).dirty(),
            final(self).deferred() == old(self).deferred(),
            final(self).flushing() == old(self).flushing(),
    {
        proof {
            use_type_invariant(&*handle);
        }
        let current = handle.paint.raw();
        let next = paint.raw();
        if current == next {
            proof {
                PaintScope::lemma_id_determines(handle.paint, paint);
            }
            return;
        }
        handle.paint = paint;
        let id = handle.id;
        let ghost before = self.cells();
        if let Some(cell) = self.registry.get(id) {
            let updated = BoundaryCell { paint: next, ..cell };
            self.registry.set(id, updated);
            proof {
                lemma_cells_wf_insert(before, id, updated);
            }
        }
    }

    /// Unregisters the boundary `handle` owns. A pending mark of it is left in the dirty list:
    /// the next flush skips it once it finds no boundary.
    pub fn unregister(&mut self, handle: LayoutBoundaryHandle)
        requires
            old(self).wf(),
        ensures
            final(self).wf(),
            final(self).cells() == old(self).cells().remove(handle.id()),
            final(self).dirty() == old(self).dirty(),
            final(self).deferred() == old(self).deferred(),
            final(self).flushing() == old(self).flushing(),
    {
        proof {
            use_type_invariant(&handle);
        }
        let ghost before = self.cells();
        self.registry.remove(handle.id);
        proof {
            lemma_cells_wf_remove(before, handle.id);
        }
    }
}

} // verus!
