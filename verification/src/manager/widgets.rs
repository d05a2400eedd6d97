use vstd::prelude::*;

use crate::manager::spawn::{
    applies_modification, build_error, first_report, modify_state, ModifyState, process_modification, push_draw_events, update_step, BuildError, BuildHost, ElementEvent, Modify, UpdateAction,
    UpdateStage,
};
use crate::manager::tree::{WidgetRefId, WidgetTree};
use crate::manager::widget::WidgetId;

verus! {

/// A queued callback: a plain function, or a callback an element registered.
#[derive(Debug, Clone, Copy, PartialEq, Eq)]
pub enum CallbackInvoke {
    /// Calls the function with this id.
    Func(u64),
    /// Calls the element's callback with this id.
    Widget { element_id: WidgetId, callback_id: u64 },
}

/// Runs queued callbacks: the driver implements it over the functions and elements it holds.
pub trait CallbackHost {
    /// The callbacks called so far, in order, each with what it returned. Every implementation is meant to define it over
    /// ghost state it keeps (a `Ghost` field) and so meet the contract below. The empty
    /// default exists only so that implementations outside verified code compile; it meets
    /// none of those contracts, and what is proved of callers holds of such an implementation
    /// only if it does what the contract says.
    closed spec fn called(&self) -> Seq<(CallbackInvoke, bool)> {
        Seq::empty()
    }

    /// Calls `invoke`, returning whether an element's callback changed the element's state.
    fn call(&mut self, invoke: CallbackInvoke) -> (changed: bool)
        ensures
            final(self).called() == old(self).called().push((invoke, changed)),
    ;
}

/// The rebuilds that the calls in `log` queue: one for each element callback that reported
/// a change, in order.
pub open spec fn callback_rebuilds(log: Seq<(CallbackInvoke, bool)>) -> Seq<Modify>
    decreases log.len(),
{
    if log.len() == 0 {
        Seq::empty()
    } else {
        let rest = callback_rebuilds(log.drop_last());
        match log.last() {
            (CallbackInvoke::Widget { element_id, .. }, true) => rest.push(Modify::Rebuild(element_id)),
            _ => rest,
        }
    }
}

/// The callbacks of `invokes` that can run on `tree`: every plain function, and the callbacks
/// of elements the tree holds, in order.
pub open spec fn callable(tree: Map<u64, crate::manager::tree::NodeView>, invokes: Seq<CallbackInvoke>) -> Seq<
    CallbackInvoke,
>
    decreases invokes.len(),
{
    if invokes.len() == 0 {
        Seq::empty()
    } else {
        let rest = callable(tree, invokes.drop_last());
        match invokes.last() {
            CallbackInvoke::Widget { element_id, .. } => if tree.dom().contains(element_id.0) {
                rest.push(invokes.last())
            } else {
                rest
            },
            CallbackInvoke::Func(_) => rest.push(invokes.last()),
        }
    }
}

/// The callbacks a log of calls names, in order.
pub open spec fn calls_of(log: Seq<(CallbackInvoke, bool)>) -> Seq<CallbackInvoke> {
    log.map_values(|c: (CallbackInvoke, bool)| c.0)
}

/// Whether `after` is `before` with the removal of a root of `tree` queued, where `tree` has an
/// element without a parent, and `before` unchanged otherwise.
pub open spec fn queued_root_removal(
    tree: Map<u64, crate::manager::tree::NodeView>,
    before: Seq<Modify>,
    after: Seq<Modify>,
) -> bool {
    if exists|id: u64| #[trigger] tree.dom().contains(id) && tree[id].0 is None {
        exists|r: WidgetId|
            tree.dom().contains(r.0) && tree[r.0].0 is None && #[trigger] before.push(Modify::Destroy(r)) == after
    } else {
        after == before
    }
}

/// The rebuild requests for `ids`, in order.
pub open spec fn rebuild_all(ids: Seq<WidgetId>) -> Seq<Modify> {
    ids.map_values(|id: WidgetId| Modify::Rebuild(id))
}

/// Whether `trace` records applying `modifications` in queue order, one step per
/// modification from the first, each step as [`applies_modification`] says: every step
/// succeeds but a failing last one, which carries `error`; with no error every modification
/// is applied.
pub open spec fn applied_in_order(trace: Seq<ModifyState>, modifications: Seq<Modify>, error: Option<BuildError>) -> bool {
    &&& trace.len() >= 1
    &&& trace.len() - 1 <= modifications.len()
    &&& error is None ==> trace.len() - 1 == modifications.len()
    &&& error is Some ==> trace.len() >= 2
    &&& forall|j: int|
        0 <= j < trace.len() - 1 ==> applies_modification(
            #[trigger] trace[j],
            modifications[j],
            trace[j + 1],
            if error is Some && j == trace.len() - 2 {
                error
            } else {
                None
            },
        )
}

/// Along a trace of applied modifications, the events of a later state extend those of an
/// earlier one.
proof fn lemma_trace_events_grow(trace: Seq<ModifyState>, modifications: Seq<Modify>, error: Option<BuildError>, a: int, b: int)
    requires
        applied_in_order(trace, modifications, error),
        0 <= a <= b < trace.len(),
    ensures
        trace[b].2.len() >= trace[a].2.len(),
        trace[b].2.subrange(0, trace[a].2.len() as int) == trace[a].2,
    decreases b - a,
{
    reveal(applies_modification);
    if a == b {
        assert(trace[b].2.subrange(0, trace[a].2.len() as int) =~= trace[a].2);
    } else {
        lemma_trace_events_grow(trace, modifications, error, a, b - 1);
        let _ = trace[b - 1];
        assert(applies_modification(
            trace[b - 1],
            modifications[b - 1],
            trace[b],
            if error is Some && b - 1 == trace.len() - 2 {
                error
            } else {
                None
            },
        ));
        assert(trace[b].2.subrange(0, trace[a].2.len() as int) =~= trace[b - 1].2.subrange(0, trace[a].2.len() as int));
    }
}

/// Queued modifications take effect in queue order: where the `i`th and a later `j`th
/// modification each report an event of their own when applied (a rebuild or destruction of
/// a held element, a spawn not refused), the `i`th one's event comes first in what a flush
/// reports, each at the place its modification was reached.
pub proof fn lemma_flush_reports_in_queue_order(
    trace: Seq<ModifyState>,
    modifications: Seq<Modify>,
    error: Option<BuildError>,
    i: int,
    j: int,
)
    requires
        applied_in_order(trace, modifications, error),
        0 <= i < j < trace.len() - 1,
        first_report(trace[i], modifications[i]) is Some,
        first_report(trace[j], modifications[j]) is Some,
    ensures
        trace[i].2.len() < trace[j].2.len(),
        trace.last().2[trace[i].2.len() as int] == first_report(trace[i], modifications[i])->Some_0,
        trace.last().2[trace[j].2.len() as int] == first_report(trace[j], modifications[j])->Some_0,
{
    reveal(applies_modification);
    let _ = trace[i];
    let _ = trace[j];
    let last = trace.len() - 1;
    lemma_trace_events_grow(trace, modifications, error, i + 1, j);
    lemma_trace_events_grow(trace, modifications, error, i + 1, last);
    lemma_trace_events_grow(trace, modifications, error, j + 1, last);
    assert(trace[i + 1].2[trace[i].2.len() as int] == trace.last().2.subrange(0, trace[i + 1].2.len() as int)[trace[i].2.len() as int]);
    assert(trace[j + 1].2[trace[j].2.len() as int] == trace.last().2.subrange(0, trace[j + 1].2.len() as int)[trace[j].2.len() as int]);
}

/// A rebuild of a held element that a flush applied successfully leaves none of the
/// element's former children that the rebuild did not retain: a child its build no longer
/// returns is destroyed.
pub proof fn lemma_flush_rebuild_drops_unbuilt_children(
    trace: Seq<ModifyState>,
    modifications: Seq<Modify>,
    error: Option<BuildError>,
    j: int,
    c: u64,
)
    requires
        applied_in_order(trace, modifications, error),
        0 <= j < trace.len() - 1,
        error is None || j < trace.len() - 2,
        modifications[j] is Rebuild,
        trace[j].0.dom().contains(modifications[j]->Rebuild_0.0),
        trace[j].0[modifications[j]->Rebuild_0.0].1.contains(c),
        !trace[j + 1].3.contains(WidgetId(c)),
    ensures
        !trace[j + 1].0.dom().contains(c),
{
    reveal(applies_modification);
    let _ = trace[j];
}

/// The element tree with the changes queued for it: modifications, dirty elements and
/// callbacks.
pub struct WidgetManager {
    tree: WidgetTree,
    modifications: Vec<Modify>,
    dirty: Vec<WidgetId>,
    callbacks: Vec<CallbackInvoke>,
}

impl WidgetManager {
    /// The element tree.
    pub closed spec fn tree(&self) -> WidgetTree {
        self.tree
    }

    /// The queued modifications, in order.
    pub closed spec fn modifications(&self) -> Seq<Modify> {
        self.modifications@
    }

    /// The elements marked dirty, each once.
    pub closed spec fn dirty(&self) -> Seq<WidgetId> {
        self.dirty@
    }

    /// The queued callbacks, in order.
    pub closed spec fn callbacks(&self) -> Seq<CallbackInvoke> {
        self.callbacks@
    }

    /// The tree is well formed and no element is marked dirty twice.
    pub closed spec fn wf(&self) -> bool {
        &&& self.tree.wf()
        &&& self.dirty@.no_duplicates()
    }

    /// A manager with an empty tree and nothing queued.
    pub fn new() -> (manager: WidgetManager)
        ensures
            manager.wf(),
            manager.tree()@ == Map::<u64, crate::manager::tree::NodeView>::empty(),
            manager.modifications() == Seq::<Modify>::empty(),
            manager.dirty() == Seq::<WidgetId>::empty(),
            manager.callbacks() == Seq::<CallbackInvoke>::empty(),
    {
        WidgetManager { tree: WidgetTree::new(), modifications: Vec::new(), dirty: Vec::new(), callbacks: Vec::new() }
    }

    /// The element tree.
    pub fn get_tree(&self) -> (tree: &WidgetTree)
        ensures
            *tree == self.tree(),
    {
        &self.tree
    }

    /// The root element, if the tree holds one.
    pub fn get_root(&self) -> (root: Option<WidgetId>)
        requires
            self.wf(),
        ensures
            match root {
                Some(r) => self.tree()@.dom().contains(r.0) && self.tree()@[r.0].0 is None,
                None => forall|id: u64| #[trigger] self.tree()@.dom().contains(id) ==> self.tree()@[id].0 is Some,
            },
    {
        self.tree.root()
    }

    /// The elements made from `widget`: its element, where the tree holds one.
    pub fn get_widget_elements(&self, widget: WidgetRefId) -> (elements: Vec<WidgetId>)
        requires
            self.wf(),
        ensures
            match crate::manager::spawn::widget_element(self.tree()@, widget) {
                Some(e) => elements@ == seq![WidgetId(e)],
                None => elements@.len() == 0,
            },
    {
        let mut elements: Vec<WidgetId> = Vec::new();
        match self.tree.find_widget(widget) {
            Some(e) => {
                elements.push(e);
                assert(crate::manager::spawn::widget_element(self.tree@, widget) == Some(e.0));
                assert(elements@ =~= seq![e]);
            },
            None => {},
        }
        elements
    }

    /// Whether the tree holds the element `id`.
    pub fn contains(&self, id: WidgetId) -> (held: bool)
        requires
            self.wf(),
        ensures
            held == self.tree()@.dom().contains(id.0),
    {
        self.tree.contains(id)
    }

    /// Whether anything is queued: modifications, dirty elements or callbacks.
    pub fn has_changes(&self) -> (changes: bool)
        ensures
            changes == (self.modifications().len() > 0 || self.dirty().len() > 0 || self.callbacks().len()
                > 0),
    {
        self.modifications.len() > 0 || self.dirty.len() > 0 || self.callbacks.len() > 0
    }

    /// Queues the root element for removal, where there is one.
    pub fn remove_root(&mut self)
        requires
            old(self).wf(),
        ensures
            final(self).wf(),
            final(self).tree() == old(self).tree(),
            final(self).dirty() == old(self).dirty(),
            final(self).callbacks() == old(self).callbacks(),
            queued_root_removal(old(self).tree()@, old(self).modifications(), final(self).modifications()),
    {
        match self.tree.root() {
            Some(root) => {
                self.modifications.push(Modify::Destroy(root));
            },
            None => {},
        }
    }

    /// Queues the root for removal and `widget` to be spawned as the new root.
    pub fn set_root(&mut self, widget: WidgetRefId)
        requires
            old(self).wf(),
        ensures
            final(self).wf(),
            final(self).tree() == old(self).tree(),
            final(self).modifications().len() > 0,
            final(self).modifications().last() == Modify::Spawn(None, widget),
            queued_root_removal(old(self).tree()@, old(self).modifications(), final(self).modifications().drop_last()),
    {
        self.remove_root();
        let ghost mid = self.modifications@;
        self.modifications.push(Modify::Spawn(None, widget));
        assert(self.modifications@.drop_last() =~= mid);
    }

    /// Marks the element `id` dirty, so that it is rebuilt on the next update.
    pub fn mark_dirty(&mut self, id: WidgetId)
        requires
            old(self).wf(),
        ensures
            final(self).wf(),
            final(self).tree() == old(self).tree(),
            final(self).modifications() == old(self).modifications(),
            final(self).callbacks() == old(self).callbacks(),
            final(self).dirty() == (if old(self).dirty().contains(id) {
                old(self).dirty()
            } else {
                old(self).dirty().push(id)
            }),
    {
        let mut k: usize = 0;
        while k < self.dirty.len()
            invariant
                self.wf(),
                self.dirty@ == old(self).dirty@,
                self.tree == old(self).tree,
                self.modifications@ == old(self).modifications@,
                self.callbacks@ == old(self).callbacks@,
                k <= self.dirty@.len(),
                forall|j: int| 0 <= j < k ==> self.dirty@[j] != id,
            decreases self.dirty@.len() - k,
        {
            if self.dirty[k].0 == id.0 {
                assert(self.dirty@.contains(id));
                return;
            }
            k = k + 1;
        }
        let ghost before = self.dirty@;
        self.dirty.push(id);
        proof {
            assert forall|a: int, b: int| 0 <= a < self.dirty@.len() && 0 <= b < self.dirty@.len() && a != b
                implies self.dirty@[a] != self.dirty@[b] by {
                if a == before.len() {
                    assert(before[b] != id);
                } else if b == before.len() {
                    assert(before[a] != id);
                }
            }
        }
    }

    /// Queues `invoke` to be called on the next update.
    pub fn queue_callback(&mut self, invoke: CallbackInvoke)
        ensures
            final(self).tree() == old(self).tree(),
            final(self).modifications() == old(self).modifications(),
            final(self).dirty() == old(self).dirty(),
            final(self).callbacks() == old(self).callbacks().push(invoke),
    {
        self.callbacks.push(invoke);
    }

    /// Queues a rebuild of each dirty element, in the order they were marked, and clears the
    /// dirty marks.
    pub fn flush_changes(&mut self)
        requires
            old(self).wf(),
        ensures
            final(self).wf(),
            final(self).tree() == old(self).tree(),
            final(self).callbacks() == old(self).callbacks(),
            final(self).dirty() == Seq::<WidgetId>::empty(),
            final(self).modifications() == old(self).modifications() + rebuild_all(old(self).dirty()),
    {
        let mut k: usize = 0;
        while k < self.dirty.len()
            invariant
                k <= self.dirty@.len(),
                self.dirty@ == old(self).dirty@,
                self.tree == old(self).tree,
                self.callbacks@ == old(self).callbacks@,
                self.modifications@ == old(self).modifications@ + rebuild_all(self.dirty@.take(k as int)),
            decreases self.dirty@.len() - k,
        {
            let id = self.dirty[k];
            self.modifications.push(Modify::Rebuild(id));
            proof {
                assert(rebuild_all(self.dirty@.take(k + 1 as int)) =~= rebuild_all(self.dirty@.take(k as int)).push(
                    Modify::Rebuild(id),
                ));
                assert(old(self).modifications@ + rebuild_all(self.dirty@.take(k + 1 as int)) =~= (old(
                    self,
                ).modifications@ + rebuild_all(self.dirty@.take(k as int))).push(Modify::Rebuild(id)));
            }
            k = k + 1;
        }
        proof {
            assert(self.dirty@.take(k as int) =~= self.dirty@);
        }
        self.dirty = Vec::new();
    }

    /// Calls each queued callback once, in order, and queues a rebuild of each element whose
    /// callback reported a change. A callback of an element the tree no longer holds is
    /// dropped uncalled.
    pub fn flush_callbacks<H: CallbackHost>(&mut self, host: &mut H)
        requires
            old(self).wf(),
        ensures
            final(self).wf(),
            final(self).tree() == old(self).tree(),
            final(self).dirty() == old(self).dirty(),
            final(self).callbacks() == Seq::<CallbackInvoke>::empty(),
            final(host).called() == old(host).called() + final(host).called().skip(old(host).called().len() as int),
            calls_of(final(host).called().skip(old(host).called().len() as int)) == callable(
                old(self).tree()@,
                old(self).callbacks(),
            ),
            final(self).modifications() == old(self).modifications() + callback_rebuilds(
                final(host).called().skip(old(host).called().len() as int),
            ),
    {
        let mut queued: Vec<CallbackInvoke> = Vec::new();
        std::mem::swap(&mut queued, &mut self.callbacks);
        let ghost log0 = host.called();
        let ghost mut log: Seq<(CallbackInvoke, bool)> = Seq::empty();
        let mut k: usize = 0;
        while k < queued.len()
            invariant
                k <= queued@.len(),
                queued@ == old(self).callbacks@,
                self.tree == old(self).tree,
                self.dirty@ == old(self).dirty@,
                self.dirty@.no_duplicates(),
                self.tree.wf(),
                self.callbacks@ == Seq::<CallbackInvoke>::empty(),
                log0 == old(host).called(),
                host.called() == log0 + log,
                calls_of(log) == callable(self.tree@, queued@.take(k as int)),
                self.modifications@ == old(self).modifications@ + callback_rebuilds(log),
            decreases queued@.len() - k,
        {
            let invoke = queued[k];
            proof {
                assert(queued@.take(k + 1 as int).drop_last() =~= queued@.take(k as int));
            }
            let runs = match invoke {
                CallbackInvoke::Widget { element_id, .. } => self.tree.contains(element_id),
                CallbackInvoke::Func(_) => true,
            };
            if runs {
                let changed = host.call(invoke);
                match invoke {
                    CallbackInvoke::Widget { element_id, .. } => {
                        if changed {
                            self.modifications.push(Modify::Rebuild(element_id));
                        }
                    },
                    CallbackInvoke::Func(_) => {},
                }
                proof {
                    let entry = (invoke, changed);
                    assert(log.push(entry).drop_last() =~= log);
                    assert(calls_of(log.push(entry)) =~= calls_of(log).push(invoke));
                    assert(log0 + log.push(entry) =~= (log0 + log).push(entry));
                    log = log.push(entry);
                }
            }
            k = k + 1;
        }
        proof {
            assert(queued@.take(k as int) =~= queued@);
            assert(host.called().skip(log0.len() as int) =~= log);
        }
    }

    /// Applies the queued modifications in order, with one retained set for the whole pass,
    /// reporting what changed in `events` and the rebuilt elements in `needs_redraw`. Rebuilds
    /// that builds ask for are queued for the next pass. Stops at the first modification that
    /// fails, leaving the ones not yet applied queued ahead of the requested rebuilds.
    pub fn flush_modifications<H: BuildHost>(
        &mut self,
        events: &mut Vec<ElementEvent>,
        needs_redraw: &mut Vec<WidgetId>,
        host: &mut H,
    ) -> (outcome: Result<(), BuildError>)
        requires
            old(self).wf(),
        ensures
            final(self).wf(),
            final(self).dirty() == old(self).dirty(),
            final(self).callbacks() == old(self).callbacks(),
            final(events)@.len() >= old(events)@.len(),
            final(events)@.subrange(0, old(events)@.len() as int) == old(events)@,
            outcome is Ok ==> forall|k: int|
                0 <= k < final(self).modifications().len() ==> (#[trigger] final(self).modifications()[k] is Rebuild),
            old(self).modifications().len() == 0 ==> final(self).tree() == old(self).tree()
                && final(events)@ == old(events)@ && final(self).modifications() == Seq::<Modify>::empty()
                && outcome is Ok,
            exists|trace: Seq<ModifyState>|
                #[trigger] applied_in_order(trace, old(self).modifications(), build_error(outcome)) && trace[0] == modify_state(
                    old(self).tree(),
                    old(events)@,
                    Seq::<WidgetId>::empty(),
                    Seq::<WidgetId>::empty(),
                    old(needs_redraw)@,
                ) && trace.last().0 == final(self).tree()@ && trace.last().1 == final(self).tree().next_id()
                    && trace.last().2 == final(events)@ && trace.last().5 == final(needs_redraw)@
                    && final(self).modifications() == old(self).modifications().skip(trace.len() - 1) + rebuild_all(
                    trace.last().4,
                ),
    {
        let mut queued: Vec<Modify> = Vec::new();
        std::mem::swap(&mut queued, &mut self.modifications);
        let mut retained: Vec<WidgetId> = Vec::new();
        let mut rebuilds: Vec<WidgetId> = Vec::new();
        let ghost mut trace: Seq<ModifyState> = seq![
            modify_state(self.tree, events@, retained@, rebuilds@, needs_redraw@),
        ];
        let mut k: usize = 0;
        while k < queued.len()
            invariant
                trace.len() == k + 1,
                trace[0] == modify_state(
                    old(self).tree(),
                    old(events)@,
                    Seq::<WidgetId>::empty(),
                    Seq::<WidgetId>::empty(),
                    old(needs_redraw)@,
                ),
                trace[k as int] == modify_state(self.tree, events@, retained@, rebuilds@, needs_redraw@),
                forall|j: int|
                    0 <= j < k ==> applies_modification(#[trigger] trace[j], queued@[j], trace[j + 1], None),
                self.wf(),
                k <= queued@.len(),
                queued@ == old(self).modifications@,
                self.modifications@ == Seq::<Modify>::empty(),
                self.dirty@ == old(self).dirty@,
                self.callbacks@ == old(self).callbacks@,
                events@.len() >= old(events)@.len(),
                events@.subrange(0, old(events)@.len() as int) == old(events)@,
                k == 0 ==> self.tree == old(self).tree && events@ == old(events)@ && rebuilds@.len() == 0,
            decreases queued@.len() - k,
        {
            let modification = queued[k];
            let ghost ev = events@;
            let applied = process_modification(
                &mut self.tree,
                events,
                &mut retained,
                &mut rebuilds,
                needs_redraw,
                modification,
                host,
            );
            proof {
                assert(events@.subrange(0, old(events)@.len() as int) =~= ev.subrange(0, old(events)@.len() as int));
                let before = trace;
                trace = trace.push(modify_state(self.tree, events@, retained@, rebuilds@, needs_redraw@));
                assert forall|j: int| 0 <= j < k + 1 implies applies_modification(
                    #[trigger] trace[j],
                    queued@[j],
                    trace[j + 1],
                    if applied is Err && j == k {
                        build_error(applied)
                    } else {
                        None
                    },
                ) by {
                    if j < k {
                        assert(trace[j] == before[j] && trace[j + 1] == before[j + 1]);
                    }
                }
            }
            k = k + 1;
            if applied.is_err() {
                let ghost applied_count = k;
                let ghost tree_then = self.tree;
                while k < queued.len()
                    invariant
                        applied_count <= k <= queued@.len(),
                        self.wf(),
                        self.dirty@ == old(self).dirty@,
                        self.callbacks@ == old(self).callbacks@,
                        queued@ == old(self).modifications@,
                        self.modifications@ == queued@.subrange(applied_count as int, k as int),
                        self.tree == tree_then,
                    decreases queued@.len() - k,
                {
                    self.modifications.push(queued[k]);
                    proof {
                        assert(queued@.subrange(applied_count as int, k + 1) =~= queued@.subrange(
                            applied_count as int,
                            k as int,
                        ).push(queued@[k as int]));
                    }
                    k = k + 1;
                }
                proof {
                    assert(queued@.subrange(applied_count as int, k as int) =~= queued@.skip(applied_count as int));
                }
                self.queue_rebuilds(&rebuilds);
                proof {
                    assert(applied_in_order(trace, old(self).modifications(), build_error(applied)));
                    assert(trace.last() == modify_state(self.tree, events@, retained@, rebuilds@, needs_redraw@));
                    assert(trace.len() - 1 == applied_count);
                }
                return applied;
            }
        }
        proof {
            assert(queued@.skip(k as int) =~= Seq::<Modify>::empty());
        }
        self.queue_rebuilds(&rebuilds);
        proof {
            assert(Seq::<Modify>::empty() + rebuild_all(rebuilds@) =~= rebuild_all(rebuilds@));
            assert(applied_in_order(trace, old(self).modifications(), None));
        }
        Ok(())
    }

    fn queue_rebuilds(&mut self, rebuilds: &Vec<WidgetId>)
        ensures
            final(self).tree == old(self).tree,
            final(self).dirty@ == old(self).dirty@,
            final(self).callbacks@ == old(self).callbacks@,
            final(self).modifications@ == old(self).modifications@ + rebuild_all(rebuilds@),
    {
        let mut k: usize = 0;
        while k < rebuilds.len()
            invariant
                k <= rebuilds@.len(),
                self.tree == old(self).tree,
                self.dirty@ == old(self).dirty@,
                self.callbacks@ == old(self).callbacks@,
                self.modifications@ == old(self).modifications@ + rebuild_all(rebuilds@.take(k as int)),
            decreases rebuilds@.len() - k,
        {
            self.modifications.push(Modify::Rebuild(rebuilds[k]));
            proof {
                assert(rebuild_all(rebuilds@.take(k + 1 as int)) =~= rebuild_all(rebuilds@.take(k as int)).push(
                    Modify::Rebuild(rebuilds@[k as int]),
                ));
                assert(old(self).modifications@ + rebuild_all(rebuilds@.take(k + 1 as int)) =~= (old(
                    self,
                ).modifications@ + rebuild_all(rebuilds@.take(k as int))).push(Modify::Rebuild(rebuilds@[k as int])));
            }
            k = k + 1;
        }
        proof {
            assert(rebuilds@.take(k as int) =~= rebuilds@);
        }
    }

    /// Brings the tree to a stable state: flushes queued modifications, dirty elements and
    /// callbacks until nothing is pending, then passes the layout stage (layout itself runs
    /// outside the library), and repeats while changes remain. Widgets that keep marking each
    /// other never settle, so this gives up after `rounds` steps; the flag returned says
    /// whether the tree settled. The events end with one `Draw` for each rebuilt element
    /// still held.
    pub fn update<H: BuildHost + CallbackHost>(&mut self, host: &mut H, rounds: usize) -> (result: Result<
        (Vec<ElementEvent>, bool),
        BuildError,
    >)
        requires
            old(self).wf(),
        ensures
            final(self).wf(),
            match result {
                Ok((_, settled)) => settled ==> final(self).modifications().len() == 0 && final(self).dirty().len()
                    == 0 && final(self).callbacks().len() == 0,
                Err(_) => true,
            },
            old(self).modifications().len() == 0 && old(self).dirty().len() == 0 && old(self).callbacks().len()
                == 0 && rounds > 0 ==> final(self).tree() == old(self).tree() && match result {
                Ok((events, settled)) => settled && events@.len() == 0,
                Err(_) => false,
            },
    {
        let mut events: Vec<ElementEvent> = Vec::new();
        let mut redraw: Vec<WidgetId> = Vec::new();
        let mut stage = UpdateStage::Start;
        let mut left = rounds;
        let mut settled = false;
        let ghost quiet = old(self).modifications().len() == 0 && old(self).dirty().len() == 0
            && old(self).callbacks().len() == 0;
        while left > 0
            invariant
                self.wf(),
                settled ==> self.modifications@.len() == 0 && self.dirty@.len() == 0 && self.callbacks@.len() == 0,
                quiet && rounds > 0 && left == rounds ==> stage == UpdateStage::Start && self.tree == old(self).tree
                    && events@.len() == 0 && redraw@.len() == 0 && !settled && self.modifications@.len() == 0
                    && self.dirty@.len() == 0 && self.callbacks@.len() == 0,
                quiet && rounds > 0 && left < rounds ==> settled && self.tree == old(self).tree && events@.len() == 0
                    && redraw@.len() == 0,
                left <= rounds,
                quiet == (old(self).modifications().len() == 0 && old(self).dirty().len() == 0
                    && old(self).callbacks().len() == 0),
            ensures
                self.wf(),
                settled ==> self.modifications@.len() == 0 && self.dirty@.len() == 0 && self.callbacks@.len() == 0,
                quiet && rounds > 0 ==> settled && self.tree == old(self).tree && events@.len() == 0
                    && redraw@.len() == 0,
            decreases left,
        {
            left = left - 1;
            match update_step(stage, self.has_changes()) {
                UpdateAction::FlushChanges => {
                    let flushed = self.flush_modifications(&mut events, &mut redraw, host);
                    if flushed.is_err() {
                        return Err(flushed.unwrap_err());
                    }
                    self.flush_changes();
                    self.flush_callbacks(host);
                    stage = UpdateStage::Changed;
                },
                UpdateAction::FlushLayout => {
                    stage = UpdateStage::LaidOut;
                },
                UpdateAction::Finish => {
                    settled = true;
                    break;
                },
            }
        }
        push_draw_events(&self.tree, &redraw, &mut events);
        Ok((events, settled))
    }
}

} // verus!
