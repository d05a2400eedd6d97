use vstd::prelude::*;

use crate::manager::tree::{
    added, parent_held, raw_ids, raw_parent, reparented, NodeView, WidgetRefId, WidgetTree,
};
use crate::manager::widget::WidgetId;

verus! {

/// A change the manager made to the element tree.
#[derive(Debug, Clone, Copy, PartialEq, Eq)]
pub enum ElementEvent {
    /// An element was created under `parent_id`.
    Spawned { parent_id: Option<WidgetId>, element_id: WidgetId },
    /// An element was rebuilt.
    Rebuilt { element_id: WidgetId },
    /// A retained element was moved under `parent_id`.
    Reparent { parent_id: Option<WidgetId>, element_id: WidgetId },
    /// An element was removed.
    Destroyed { element_id: WidgetId },
    /// An element needs drawing.
    Draw { element_id: WidgetId },
}

/// What an existing element answers when offered a new widget in its place.
#[derive(Debug, Clone, Copy, PartialEq, Eq)]
pub enum ElementUpdate {
    /// The widget is the same; the element stays as it is.
    Noop,
    /// The element keeps its state but must rebuild.
    RebuildNecessary,
    /// The element cannot take the widget; a new element replaces it.
    Invalid,
}

/// How a widget found its element.
#[derive(Debug, Clone, Copy, PartialEq, Eq)]
pub enum SpawnResult {
    /// A new element was created, to be built next.
    Created(WidgetId),
    /// The existing element was kept, rebuilt later where `needs_rebuild`.
    Retained { element_id: WidgetId, needs_rebuild: bool },
}

/// Places `widget` under `parent`. Where `existing` names the element already in that place
/// together with its answer to the widget, an element that can take the widget is retained;
/// otherwise a new element is added to the tree and reported as spawned.
pub fn process_spawn<H: BuildHost>(
    tree: &mut WidgetTree,
    events: &mut Vec<ElementEvent>,
    parent: Option<WidgetId>,
    widget: WidgetRefId,
    existing: Option<(WidgetId, ElementUpdate)>,
    host: &mut H,
) -> (result: SpawnResult)
    requires
        old(tree).wf(),
        old(tree).next_id() < u64::MAX,
        parent_held(old(tree)@, parent),
        forall|e: u64| #[trigger] old(tree)@.dom().contains(e) ==> old(tree)@[e].2 != widget.0,
    ensures
        final(tree).wf(),
        final(host).built() == old(host).built(),
        final(host).answers() == old(host).answers(),
        final(host).offers() == old(host).offers(),
        final(host).lifecycle() == old(host).lifecycle() + final(events)@.skip(old(events)@.len() as int),
        match existing {
            Some((element_id, ElementUpdate::Noop)) => {
                &&& result == SpawnResult::Retained { element_id, needs_rebuild: false }
                &&& final(tree)@ == old(tree)@
                &&& final(tree).next_id() == old(tree).next_id()
                &&& final(events)@ == old(events)@
            },
            Some((element_id, ElementUpdate::RebuildNecessary)) => {
                &&& result == SpawnResult::Retained { element_id, needs_rebuild: true }
                &&& final(tree)@ == old(tree)@
                &&& final(tree).next_id() == old(tree).next_id()
                &&& final(events)@ == old(events)@
            },
            _ => {
                let id = old(tree).next_id();
                &&& result == SpawnResult::Created(WidgetId(id))
                &&& !old(tree)@.dom().contains(id)
                &&& final(tree)@ == added(old(tree)@, raw_parent(parent), widget.0, id)
                &&& final(tree).next_id() == id + 1
                &&& final(events)@ == old(events)@.push(
                    ElementEvent::Spawned { parent_id: parent, element_id: WidgetId(id) },
                )
            },
        },
{
    match existing {
        Some((element_id, ElementUpdate::Noop)) => {
            assert(events@.skip(old(events)@.len() as int) =~= Seq::<ElementEvent>::empty());
            return SpawnResult::Retained { element_id, needs_rebuild: false };
        },
        Some((element_id, ElementUpdate::RebuildNecessary)) => {
            assert(events@.skip(old(events)@.len() as int) =~= Seq::<ElementEvent>::empty());
            return SpawnResult::Retained { element_id, needs_rebuild: true };
        },
        _ => {},
    }
    let element_id = tree.add(parent, widget);
    host.mount(parent, element_id, widget);
    events.push(ElementEvent::Spawned { parent_id: parent, element_id });
    proof {
        assert(events@.skip(old(events)@.len() as int) =~= seq![
            ElementEvent::Spawned { parent_id: parent, element_id },
        ]);
    }
    SpawnResult::Created(element_id)
}

/// Retains the element `existing`, already in the tree for a widget that `parent` built
/// again, moving it under `parent` and reporting the move where its parent changed.
pub fn process_reparent<H: BuildHost>(
    tree: &mut WidgetTree,
    events: &mut Vec<ElementEvent>,
    retained: &mut Vec<WidgetId>,
    parent: WidgetId,
    existing: WidgetId,
    host: &mut H,
)
    requires
        old(tree).wf(),
        old(tree)@.dom().contains(parent.0),
        old(tree)@.dom().contains(existing.0),
        !old(retained)@.contains(existing),
    ensures
        final(tree).wf(),
        final(tree).next_id() == old(tree).next_id(),
        final(host).built() == old(host).built(),
        final(host).answers() == old(host).answers(),
        final(host).offers() == old(host).offers(),
        final(host).lifecycle() == old(host).lifecycle() + final(events)@.skip(old(events)@.len() as int),
        final(retained)@ == old(retained)@.push(existing),
        final(tree)@ == reparented(old(tree)@, Some(parent.0), existing.0).0,
        final(events)@ == (if reparented(old(tree)@, Some(parent.0), existing.0).1 {
            old(events)@.push(ElementEvent::Reparent { parent_id: Some(parent), element_id: existing })
        } else {
            old(events)@
        }),
{
    retained.push(existing);
    if tree.reparent(Some(parent), existing) {
        host.remount(Some(parent), existing);
        events.push(ElementEvent::Reparent { parent_id: Some(parent), element_id: existing });
        assert(events@.skip(old(events)@.len() as int) =~= seq![
            ElementEvent::Reparent { parent_id: Some(parent), element_id: existing },
        ]);
    } else {
        assert(events@.skip(old(events)@.len() as int) =~= Seq::<ElementEvent>::empty());
    }
}

} // verus!

verus! {

/// Builds elements for the widget manager: runs an element's build and offers an existing
/// element a new widget. The driver implements it over the elements it holds.
pub trait BuildHost {
    /// The elements built so far, in order. Every implementation is meant to define it over ghost
    /// state it keeps (a `Ghost` field) and so meet the contracts below. The empty default exists
    /// only so that implementations outside verified code compile; it meets none of those
    /// contracts, and what is proved of callers holds of such an implementation only if it does
    /// what the contracts say.
    closed spec fn built(&self) -> Seq<u64> {
        Seq::empty()
    }

    /// What the elements have been told of their place in the tree so far, in order: a spawn
    /// mounts, a move remounts, a removal unmounts. Kept and defined as
    /// [`built`](Self::built) is.
    closed spec fn lifecycle(&self) -> Seq<ElementEvent> {
        Seq::empty()
    }

    /// Each build so far with the widgets it returned, in order. Kept and defined as
    /// [`built`](Self::built) is.
    closed spec fn answers(&self) -> Seq<(u64, Seq<WidgetRefId>)> {
        Seq::empty()
    }

    /// Each widget offered to an element so far with the element's answer, in order. Kept and
    /// defined as [`built`](Self::built) is.
    closed spec fn offers(&self) -> Seq<(u64, u64, ElementUpdate)> {
        Seq::empty()
    }

    /// Builds the element `element`, returning the widgets of its children in order.
    fn build(&mut self, element: WidgetId) -> (children: Vec<WidgetRefId>)
        ensures
            final(self).built() == old(self).built().push(element.0),
            final(self).lifecycle() == old(self).lifecycle(),
            final(self).answers() == old(self).answers().push((element.0, children@)),
            final(self).offers() == old(self).offers(),
    ;

    /// Offers the element `element` the widget `widget` in place of its own.
    fn update_widget(&mut self, element: WidgetId, widget: WidgetRefId) -> (update: ElementUpdate)
        ensures
            final(self).built() == old(self).built(),
            final(self).lifecycle() == old(self).lifecycle(),
            final(self).answers() == old(self).answers(),
            final(self).offers() == old(self).offers().push((element.0, widget.0, update)),
    ;

    /// Mounts the new element `element`, made from `widget`, under `parent`.
    fn mount(&mut self, parent: Option<WidgetId>, element: WidgetId, widget: WidgetRefId)
        ensures
            final(self).built() == old(self).built(),
            final(self).answers() == old(self).answers(),
            final(self).offers() == old(self).offers(),
            final(self).lifecycle() == old(self).lifecycle().push(
                (ElementEvent::Spawned { parent_id: parent, element_id: element }),
            ),
    ;

    /// Remounts the retained element `element`, moved under `parent`.
    fn remount(&mut self, parent: Option<WidgetId>, element: WidgetId)
        ensures
            final(self).built() == old(self).built(),
            final(self).answers() == old(self).answers(),
            final(self).offers() == old(self).offers(),
            final(self).lifecycle() == old(self).lifecycle().push(
                (ElementEvent::Reparent { parent_id: parent, element_id: element }),
            ),
    ;

    /// Unmounts the element `element`, about to be removed.
    fn unmount(&mut self, element: WidgetId)
        ensures
            final(self).built() == old(self).built(),
            final(self).answers() == old(self).answers(),
            final(self).offers() == old(self).offers(),
            final(self).lifecycle() == old(self).lifecycle().push(
                (ElementEvent::Destroyed { element_id: element }),
            ),
    ;
}

/// A log that followed `a` from its `start` and then `b` from where `a` ends has followed `b`
/// from `start`, when `b` extends `a`.
proof fn lemma_log_follows(log: Seq<ElementEvent>, a: Seq<ElementEvent>, b: Seq<ElementEvent>, start: int)
    requires
        0 <= start <= a.len() <= b.len(),
        b.subrange(0, a.len() as int) == a,
    ensures
        log + a.skip(start) + b.skip(a.len() as int) == log + b.skip(start),
{
    assert forall|k: int| 0 <= k < a.len() - start implies #[trigger] b.skip(start)[k] == a.skip(start)[k] by {
        assert(b.subrange(0, a.len() as int)[start + k] == a[start + k]);
    }
    assert(log + a.skip(start) + b.skip(a.len() as int) =~= log + b.skip(start));
}

/// Why a build pass stopped.
#[derive(Debug, Clone, Copy, PartialEq, Eq)]
pub enum BuildError {
    /// A build handed out a widget whose element was already retained in this pass: one
    /// widget cannot stand twice in the tree.
    DuplicateWidget(WidgetRefId),
    /// The tree holds as many elements as it can number.
    TreeFull,
    /// A spawn named a parent the tree does not hold.
    MissingParent,
    /// A rebuild named an element the tree does not hold.
    MissingElement(WidgetId),
}

/// Whether `event` is one a build pass reports: a spawn or a move under a parent.
pub open spec fn is_build_event(event: ElementEvent) -> bool {
    match event {
        ElementEvent::Spawned { parent_id: Some(_), element_id } => true,
        ElementEvent::Reparent { parent_id: Some(_), element_id } => true,
        _ => false,
    }
}

/// Whether each element spawned in `events` from `start` on comes after its parent in
/// `order`.
pub open spec fn spawned_after_parent(events: Seq<ElementEvent>, start: int, order: Seq<u64>) -> bool {
    forall|k: int|
        start <= k < events.len() ==> match #[trigger] events[k] {
            ElementEvent::Spawned { parent_id: Some(p), element_id } => exists|a: int, b: int|
                0 <= a < b < order.len() && order[a] == p.0 && order[b] == element_id.0,
            _ => true,
        }
}

fn holds_element(retained: &Vec<WidgetId>, element: WidgetId) -> (found: bool)
    ensures
        found == retained@.contains(element),
{
    let mut k: usize = 0;
    while k < retained.len()
        invariant
            k <= retained@.len(),
            forall|j: int| 0 <= j < k ==> retained@[j] != element,
        decreases retained@.len() - k,
    {
        if retained[k].0 == element.0 {
            return true;
        }
        k = k + 1;
    }
    false
}

/// The tree, the next element id, the events reported, the retained elements, the elements
/// queued for rebuild, and the elements queued for building, as a build pass goes.
pub type BuildState = (Map<u64, NodeView>, u64, Seq<ElementEvent>, Seq<WidgetId>, Seq<WidgetId>, Seq<WidgetId>);

/// The element `tree` holds for the widget `widget`, if any.
pub open spec fn widget_element(tree: Map<u64, NodeView>, widget: WidgetRefId) -> Option<u64> {
    if exists|e: u64| #[trigger] tree.dom().contains(e) && tree[e].2 == widget.0 {
        Some(choose|e: u64| #[trigger] tree.dom().contains(e) && tree[e].2 == widget.0)
    } else {
        None
    }
}

/// `st` with a new element for `widget` spawned as the last child of `parent`, reported and
/// queued for building.
pub open spec fn spawned_child(st: BuildState, parent: WidgetId, widget: WidgetRefId) -> BuildState {
    (
        added(st.0, Some(parent.0), widget.0, st.1),
        (st.1 + 1) as u64,
        st.2.push(ElementEvent::Spawned { parent_id: Some(parent), element_id: WidgetId(st.1) }),
        st.3,
        st.4,
        st.5.push(WidgetId(st.1)),
    )
}

/// Placing the widgets `widgets` that `parent` built, from the `j`th on, given the answers
/// `offers` that elements give, in order: a widget that already has an element retains it,
/// moving it under `parent` (reported where its parent changes), and fails with
/// `DuplicateWidget` where it was retained already in the pass; otherwise the tree must have
/// room (else `TreeFull`), and the child of `parent` in that place, where there is one, is
/// offered the widget: it stays (queued for rebuild where it must rebuild) or, where it
/// cannot take it, a new element is spawned, as it is where there is no child there.
/// Returns the state reached, the answers left, and the error, if any.
pub open spec fn placed_widgets(
    st: BuildState,
    parent: WidgetId,
    widgets: Seq<WidgetRefId>,
    j: int,
    offers: Seq<(u64, u64, ElementUpdate)>,
) -> (BuildState, Seq<(u64, u64, ElementUpdate)>, Option<BuildError>)
    decreases widgets.len() - j,
{
    if 0 <= j < widgets.len() {
        let widget = widgets[j];
        match widget_element(st.0, widget) {
            Some(e) => if st.3.contains(WidgetId(e)) {
                (st, offers, Some(BuildError::DuplicateWidget(widget)))
            } else {
                let (moved, changed) = reparented(st.0, Some(parent.0), e);
                let reported = if changed {
                    st.2.push(ElementEvent::Reparent { parent_id: Some(parent), element_id: WidgetId(e) })
                } else {
                    st.2
                };
                placed_widgets((moved, st.1, reported, st.3.push(WidgetId(e)), st.4, st.5), parent, widgets, j + 1, offers)
            },
            None => if st.1 == u64::MAX {
                (st, offers, Some(BuildError::TreeFull))
            } else if st.0.dom().contains(parent.0) && j < st.0[parent.0].1.len() {
                let x = WidgetId(st.0[parent.0].1[j]);
                let answer = if offers.len() > 0 {
                    offers[0].2
                } else {
                    ElementUpdate::Invalid
                };
                let rest = if offers.len() > 0 {
                    offers.drop_first()
                } else {
                    offers
                };
                match answer {
                    ElementUpdate::Noop => placed_widgets((st.0, st.1, st.2, st.3.push(x), st.4, st.5), parent, widgets, j + 1, rest),
                    ElementUpdate::RebuildNecessary => placed_widgets(
                        (st.0, st.1, st.2, st.3.push(x), st.4.push(x), st.5),
                        parent,
                        widgets,
                        j + 1,
                        rest,
                    ),
                    ElementUpdate::Invalid => placed_widgets(spawned_child(st, parent, widget), parent, widgets, j + 1, rest),
                }
            } else {
                placed_widgets(spawned_child(st, parent, widget), parent, widgets, j + 1, offers)
            },
        }
    } else {
        (st, offers, None)
    }
}

/// Building breadth-first from the `head`th queued element, given what each build returned
/// (`builds`, in order) and the answers elements give (`offers`): each queued element's
/// widgets are placed as [`placed_widgets`] says, new elements joining the queue, until the
/// queue is done or a placement fails. Returns the state reached and the error, if any.
pub open spec fn built_breadth_first(
    st: BuildState,
    head: int,
    builds: Seq<(u64, Seq<WidgetRefId>)>,
    offers: Seq<(u64, u64, ElementUpdate)>,
) -> (BuildState, Option<BuildError>)
    decreases builds.len(),
{
    if 0 <= head < st.5.len() && builds.len() > 0 {
        let (next, left, error) = placed_widgets(st, st.5[head], builds[0].1, 0, offers);
        if error is Some {
            (next, error)
        } else {
            built_breadth_first(next, head + 1, builds.drop_first(), left)
        }
    } else {
        (st, None)
    }
}

/// What is left of a build pass once the widgets of `parent` from the `j`th on are placed and
/// the queue is built on from `head`.
pub open spec fn build_continues(
    st: BuildState,
    parent: WidgetId,
    widgets: Seq<WidgetRefId>,
    j: int,
    head: int,
    builds: Seq<(u64, Seq<WidgetRefId>)>,
    offers: Seq<(u64, u64, ElementUpdate)>,
) -> (BuildState, Option<BuildError>) {
    let (next, left, error) = placed_widgets(st, parent, widgets, j, offers);
    if error is Some {
        (next, error)
    } else {
        built_breadth_first(next, head, builds, left)
    }
}

/// The build state of a tree, the events so far, the retained elements, the elements queued
/// for rebuild, and the build queue.
pub open spec fn bstate(
    tree: WidgetTree,
    events: Seq<ElementEvent>,
    retained: Seq<WidgetId>,
    rebuilds: Seq<WidgetId>,
    queue: Seq<WidgetId>,
) -> BuildState {
    (tree@, tree.next_id(), events, retained, rebuilds, queue)
}

/// Whether a build pass that ended with `tree`, `events`, `retained`, `rebuilds` and
/// `error` reached what `r` says (its build queue aside).
pub open spec fn build_reached(
    tree: WidgetTree,
    events: Seq<ElementEvent>,
    retained: Seq<WidgetId>,
    rebuilds: Seq<WidgetId>,
    error: Option<BuildError>,
    r: (BuildState, Option<BuildError>),
) -> bool {
    &&& r.0.0 == tree@
    &&& r.0.1 == tree.next_id()
    &&& r.0.2 == events
    &&& r.0.3 == retained
    &&& r.0.4 == rebuilds
    &&& r.1 == error
}

/// The error a build outcome carries, if any.
pub open spec fn build_error(outcome: Result<(), BuildError>) -> Option<BuildError> {
    match outcome {
        Ok(_) => None,
        Err(e) => Some(e),
    }
}

/// Builds `root` and, breadth-first, every element its builds spawn. Each widget a build
/// returns either finds the element already made for it, which is retained and moved under
/// the builder, or takes the builder's child in that place where that element accepts it
/// (queueing it in `rebuilds` where it must rebuild), or gets a new element, built in turn.
pub fn process_build<H: BuildHost>(
    tree: &mut WidgetTree,
    events: &mut Vec<ElementEvent>,
    retained: &mut Vec<WidgetId>,
    rebuilds: &mut Vec<WidgetId>,
    root: WidgetId,
    host: &mut H,
) -> (outcome: Result<(), BuildError>)
    requires
        old(tree).wf(),
        old(tree)@.dom().contains(root.0),
    ensures
        final(tree).wf(),
        old(tree)@.dom().subset_of(final(tree)@.dom()),
        final(host).built().len() > old(host).built().len(),
        final(host).built() == old(host).built() + final(host).built().skip(
            old(host).built().len() as int,
        ),
        final(host).built()[old(host).built().len() as int] == root.0,
        final(host).built().skip(old(host).built().len() as int).no_duplicates(),
        forall|e: u64|
            #[trigger] final(host).built().skip(old(host).built().len() as int).contains(e)
                ==> final(tree)@.dom().contains(e),
        outcome is Ok ==> forall|e: u64|
            #[trigger] final(tree)@.dom().contains(e) && !old(tree)@.dom().contains(e)
                ==> final(host).built().skip(old(host).built().len() as int).contains(e),
        final(events)@.len() >= old(events)@.len(),
        final(events)@.subrange(0, old(events)@.len() as int) == old(events)@,
        forall|k: int|
            old(events)@.len() <= k < final(events)@.len() ==> is_build_event(
                #[trigger] final(events)@[k],
            ),
        final(rebuilds)@.len() >= old(rebuilds)@.len(),
        final(rebuilds)@.subrange(0, old(rebuilds)@.len() as int) == old(rebuilds)@,
        final(host).lifecycle() == old(host).lifecycle() + final(events)@.skip(old(events)@.len() as int),
        outcome is Ok ==> spawned_after_parent(
            final(events)@,
            old(events)@.len() as int,
            final(host).built().skip(old(host).built().len() as int),
        ),
        final(host).answers() == old(host).answers() + final(host).answers().skip(old(host).answers().len() as int),
        final(host).offers() == old(host).offers() + final(host).offers().skip(old(host).offers().len() as int),
        build_reached(
            *final(tree),
            final(events)@,
            final(retained)@,
            final(rebuilds)@,
            build_error(outcome),
            built_breadth_first(
                bstate(*old(tree), old(events)@, old(retained)@, old(rebuilds)@, seq![root]),
                0,
                final(host).answers().skip(old(host).answers().len() as int),
                final(host).offers().skip(old(host).offers().len() as int),
            ),
        ),
{
    let ghost dom0 = tree@.dom();
    let ghost life0 = host.lifecycle();
    let ghost built0 = host.built();
    let ghost events0 = events@;
    let ghost rebuilds0 = rebuilds@;
    let ghost n0 = tree.next_id() as int;
    let ghost a0 = host.answers();
    let ghost o0 = host.offers();
    let ghost s0 = bstate(*tree, events@, retained@, rebuilds@, seq![root]);
    let mut queue: Vec<WidgetId> = Vec::new();
    queue.push(root);
    proof {
        tree.lemma_ids_below_next();
        assert(queue@ =~= seq![root]);
        assert forall|fb: Seq<(u64, Seq<WidgetRefId>)>, fo: Seq<(u64, u64, ElementUpdate)>| #[trigger] built_breadth_first(
            bstate(*tree, events@, retained@, rebuilds@, queue@),
            0,
            fb,
            fo,
        ) == built_breadth_first(s0, 0, host.answers().skip(a0.len() as int) + fb, host.offers().skip(o0.len() as int) + fo) by {
            assert(host.answers().skip(a0.len() as int) + fb =~= fb);
            assert(host.offers().skip(o0.len() as int) + fo =~= fo);
        }
    }
    let mut head: usize = 0;
    while head < queue.len()
        invariant
            tree.wf(),
            0 <= head <= queue@.len(),
            queue@.len() >= 1,
            queue@[0] == root,
            dom0 == old(tree)@.dom(),
            dom0.subset_of(tree@.dom()),
            dom0.contains(root.0),
            forall|k: int| 0 <= k < queue@.len() ==> tree@.dom().contains(#[trigger] queue@[k].0),
            forall|k: int| 1 <= k < queue@.len() ==> !dom0.contains(#[trigger] queue@[k].0),
            forall|a: int, b: int| 0 <= a < b < queue@.len() ==> #[trigger] queue@[a].0 != #[trigger] queue@[b].0,
            forall|k: int| 0 <= k < queue@.len() ==> #[trigger] queue@[k].0 < tree.next_id(),
            forall|e: u64|
                #[trigger] tree@.dom().contains(e) && !dom0.contains(e) ==> exists|k: int|
                    1 <= k < queue@.len() && #[trigger] queue@[k].0 == e,
            built0 == old(host).built(),
            host.built() == built0 + queue@.take(head as int).map_values(|w: WidgetId| w.0),
            events0 == old(events)@,
            events@.len() >= events0.len(),
            events@.subrange(0, events0.len() as int) == events0,
            forall|k: int| events0.len() <= k < events@.len() ==> is_build_event(#[trigger] events@[k]),
            rebuilds0 == old(rebuilds)@,
            rebuilds@.len() >= rebuilds0.len(),
            rebuilds@.subrange(0, rebuilds0.len() as int) == rebuilds0,
            tree.next_id() as int == n0 + queue@.len() - 1,
            life0 == old(host).lifecycle(),
            host.lifecycle() == life0 + events@.skip(events0.len() as int),
            spawned_after_parent(events@, events0.len() as int, raw_ids(queue@)),
            a0 == old(host).answers(),
            o0 == old(host).offers(),
            host.answers().len() >= a0.len(),
            host.answers().subrange(0, a0.len() as int) == a0,
            host.offers().len() >= o0.len(),
            host.offers().subrange(0, o0.len() as int) == o0,
            s0 == bstate(*old(tree), old(events)@, old(retained)@, old(rebuilds)@, seq![root]),
            forall|fb: Seq<(u64, Seq<WidgetRefId>)>, fo: Seq<(u64, u64, ElementUpdate)>| #[trigger] built_breadth_first(
                bstate(*tree, events@, retained@, rebuilds@, queue@),
                head as int,
                fb,
                fo,
            ) == built_breadth_first(s0, 0, host.answers().skip(a0.len() as int) + fb, host.offers().skip(o0.len() as int) + fo),
        decreases u64::MAX as int - n0 + 1 - head,
    {
        let element = queue[head];
        let ghost ans_before = host.answers();
        let ghost cur0 = bstate(*tree, events@, retained@, rebuilds@, queue@);
        let widgets = host.build(element);
        proof {
            assert(host.answers().subrange(0, a0.len() as int) =~= ans_before.subrange(0, a0.len() as int));
            assert forall|fb: Seq<(u64, Seq<WidgetRefId>)>, fo: Seq<(u64, u64, ElementUpdate)>| #[trigger] build_continues(
                cur0,
                element,
                widgets@,
                0,
                head + 1,
                fb,
                fo,
            ) == built_breadth_first(s0, 0, host.answers().skip(a0.len() as int) + fb, host.offers().skip(o0.len() as int) + fo) by {
                let fb1 = seq![(element.0, widgets@)] + fb;
                assert(built_breadth_first(cur0, head as int, fb1, fo) == built_breadth_first(
                    s0,
                    0,
                    ans_before.skip(a0.len() as int) + fb1,
                    host.offers().skip(o0.len() as int) + fo,
                ));
                assert(fb1.drop_first() =~= fb);
                assert(fb1[0] == (element.0, widgets@));
                assert(ans_before.skip(a0.len() as int) + fb1 =~= host.answers().skip(a0.len() as int) + fb);
            }
        }
        head = head + 1;
        let mut j: usize = 0;
        while j < widgets.len()
            invariant
                tree.wf(),
                1 <= head <= queue@.len(),
                dom0 == old(tree)@.dom(),
                built0 == old(host).built(),
                events0 == old(events)@,
                rebuilds0 == old(rebuilds)@,
                queue@.len() >= 1,
                queue@[0] == root,
                dom0.subset_of(tree@.dom()),
                tree@.dom().contains(element.0),
                forall|k: int| 0 <= k < queue@.len() ==> tree@.dom().contains(#[trigger] queue@[k].0),
                forall|k: int| 1 <= k < queue@.len() ==> !dom0.contains(#[trigger] queue@[k].0),
                forall|a: int, b: int| 0 <= a < b < queue@.len() ==> #[trigger] queue@[a].0 != #[trigger] queue@[b].0,
                forall|k: int| 0 <= k < queue@.len() ==> #[trigger] queue@[k].0 < tree.next_id(),
                forall|e: u64|
                    #[trigger] tree@.dom().contains(e) && !dom0.contains(e) ==> exists|k: int|
                        1 <= k < queue@.len() && #[trigger] queue@[k].0 == e,
                host.built() == built0 + queue@.take(head as int).map_values(|w: WidgetId| w.0),
                events@.len() >= events0.len(),
                events@.subrange(0, events0.len() as int) == events0,
                forall|k: int| events0.len() <= k < events@.len() ==> is_build_event(#[trigger] events@[k]),
                rebuilds@.len() >= rebuilds0.len(),
                rebuilds@.subrange(0, rebuilds0.len() as int) == rebuilds0,
                tree.next_id() as int == n0 + queue@.len() - 1,
                life0 == old(host).lifecycle(),
                host.lifecycle() == life0 + events@.skip(events0.len() as int),
                spawned_after_parent(events@, events0.len() as int, raw_ids(queue@)),
                queue@[head - 1] == element,
                a0 == old(host).answers(),
                o0 == old(host).offers(),
                host.answers().len() >= a0.len(),
                host.answers().subrange(0, a0.len() as int) == a0,
                host.offers().len() >= o0.len(),
                host.offers().subrange(0, o0.len() as int) == o0,
                s0 == bstate(*old(tree), old(events)@, old(retained)@, old(rebuilds)@, seq![root]),
                forall|fb: Seq<(u64, Seq<WidgetRefId>)>, fo: Seq<(u64, u64, ElementUpdate)>| #[trigger] build_continues(
                    bstate(*tree, events@, retained@, rebuilds@, queue@),
                    element,
                    widgets@,
                    j as int,
                    head as int,
                    fb,
                    fo,
                ) == built_breadth_first(s0, 0, host.answers().skip(a0.len() as int) + fb, host.offers().skip(o0.len() as int) + fo),
            decreases widgets@.len() - j,
        {
            let widget = widgets[j];
            let ghost cur = bstate(*tree, events@, retained@, rebuilds@, queue@);
            let ghost off_before = host.offers();
            let ghost mut used = false;
            let ghost mut offer: (u64, u64, ElementUpdate) = (0, 0, ElementUpdate::Invalid);
            let ghost q_before = queue@;
            let ghost d_before = tree@.dom();
            let ghost e_before = events@;
            match tree.find_widget(widget) {
                Some(existing) => {
                    proof {
                        assert(widget_element(tree@, widget) == Some(existing.0));
                    }
                    if holds_element(retained, existing) {
                        proof {
                            lemma_queue_log(built0, host.built(), queue@, head as int);
                            lemma_build_stops(cur, element, widgets@, j as int, head as int, s0, host.answers().skip(
                                a0.len() as int,
                            ), host.offers().skip(o0.len() as int));
                            assert(host.answers() =~= a0 + host.answers().skip(a0.len() as int));
                            assert(host.offers() =~= o0 + host.offers().skip(o0.len() as int));
                        }
                        return Err(BuildError::DuplicateWidget(widget));
                    }
                    process_reparent(tree, events, retained, element, existing, host);
                    assert(tree@.dom() =~= d_before);
                },
                None => {
                    proof {
                        assert(widget_element(tree@, widget) is None);
                    }
                    if !tree.has_room() {
                        proof {
                            lemma_queue_log(built0, host.built(), queue@, head as int);
                            lemma_build_stops(cur, element, widgets@, j as int, head as int, s0, host.answers().skip(
                                a0.len() as int,
                            ), host.offers().skip(o0.len() as int));
                            assert(host.answers() =~= a0 + host.answers().skip(a0.len() as int));
                            assert(host.offers() =~= o0 + host.offers().skip(o0.len() as int));
                        }
                        return Err(BuildError::TreeFull);
                    }
                    let offered = match tree.get_child(element, j) {
                        Some(child) => {
                            let answer = host.update_widget(child, widget);
                            proof {
                                used = true;
                                offer = (child.0, widget.0, answer);
                            }
                            Some((child, answer))
                        },
                        None => None,
                    };
                    match process_spawn(tree, events, Some(element), widget, offered, host) {
                        SpawnResult::Retained { element_id, needs_rebuild } => {
                            retained.push(element_id);
                            if needs_rebuild {
                                rebuilds.push(element_id);
                            }
                        },
                        SpawnResult::Created(element_id) => {
                            queue.push(element_id);
                            assert(tree@.dom() =~= d_before.insert(element_id.0));
                        },
                    }
                },
            }
            proof {
                if events@.len() >= e_before.len() && events@.subrange(0, e_before.len() as int) == e_before {
                    lemma_log_follows(life0, e_before, events@, events0.len() as int);
                }
                assert forall|k: int| events0.len() <= k < events@.len() implies match #[trigger] events@[k] {
                    ElementEvent::Spawned { parent_id: Some(p), element_id } => exists|a: int, b: int|
                        0 <= a < b < raw_ids(queue@).len() && raw_ids(queue@)[a] == p.0 && raw_ids(queue@)[b] == element_id.0,
                    _ => true,
                } by {
                    if k < e_before.len() {
                        assert(events@[k] == e_before[k]);
                        match events@[k] {
                            ElementEvent::Spawned { parent_id: Some(p), element_id } => {
                                let (a, b) = choose|a: int, b: int|
                                    0 <= a < b < raw_ids(q_before).len() && raw_ids(q_before)[a] == p.0
                                        && raw_ids(q_before)[b] == element_id.0;
                                assert(queue@[a] == q_before[a] && queue@[b] == q_before[b]);
                                assert(raw_ids(queue@)[a] == p.0 && raw_ids(queue@)[b] == element_id.0);
                            },
                            _ => {},
                        }
                    } else {
                        match events@[k] {
                            ElementEvent::Spawned { parent_id: Some(p), element_id } => {
                                let b = queue@.len() - 1;
                                assert(raw_ids(queue@)[head - 1] == p.0);
                                assert(raw_ids(queue@)[b] == element_id.0);
                            },
                            _ => {},
                        }
                    }
                }
                assert forall|e: u64| #[trigger] tree@.dom().contains(e) && !dom0.contains(e) implies exists|k: int|
                    1 <= k < queue@.len() && #[trigger] queue@[k].0 == e by {
                    if d_before.contains(e) {
                        let k = choose|k: int| 1 <= k < q_before.len() && #[trigger] q_before[k].0 == e;
                        assert(queue@[k] == q_before[k]);
                    } else {
                        assert(queue@[queue@.len() - 1].0 == e);
                    }
                }
                let after = bstate(*tree, events@, retained@, rebuilds@, queue@);
                assert(host.offers() == (if used { off_before.push(offer) } else { off_before }));
                assert forall|fb: Seq<(u64, Seq<WidgetRefId>)>, fo: Seq<(u64, u64, ElementUpdate)>| build_continues(
                    cur,
                    element,
                    widgets@,
                    j as int,
                    head as int,
                    fb,
                    if used { seq![offer] + fo } else { fo },
                ) == #[trigger] build_continues(after, element, widgets@, j + 1, head as int, fb, fo) by {
                    if used {
                        assert((seq![offer] + fo).drop_first() =~= fo);
                        assert((seq![offer] + fo)[0] == offer);
                    }
                }
                assert(host.offers().skip(o0.len() as int) =~= (if used {
                    off_before.skip(o0.len() as int).push(offer)
                } else {
                    off_before.skip(o0.len() as int)
                }));
                lemma_build_step(cur, after, element, widgets@, j as int, head as int, s0, host.answers().skip(
                    a0.len() as int,
                ), off_before.skip(o0.len() as int), host.offers().skip(o0.len() as int), used, offer);
            }
            j = j + 1;
        }
        proof {
            assert forall|fb: Seq<(u64, Seq<WidgetRefId>)>, fo: Seq<(u64, u64, ElementUpdate)>| #[trigger] built_breadth_first(
                bstate(*tree, events@, retained@, rebuilds@, queue@),
                head as int,
                fb,
                fo,
            ) == built_breadth_first(s0, 0, host.answers().skip(a0.len() as int) + fb, host.offers().skip(o0.len() as int) + fo) by {
                assert(build_continues(
                    bstate(*tree, events@, retained@, rebuilds@, queue@),
                    element,
                    widgets@,
                    j as int,
                    head as int,
                    fb,
                    fo,
                ) == built_breadth_first(s0, 0, host.answers().skip(a0.len() as int) + fb, host.offers().skip(o0.len() as int) + fo));
            }
        }
    }
    proof {
        let fb = Seq::<(u64, Seq<WidgetRefId>)>::empty();
        let fo = Seq::<(u64, u64, ElementUpdate)>::empty();
        assert(built_breadth_first(bstate(*tree, events@, retained@, rebuilds@, queue@), head as int, fb, fo)
            == built_breadth_first(s0, 0, host.answers().skip(a0.len() as int) + fb, host.offers().skip(o0.len() as int) + fo));
        assert(host.answers().skip(a0.len() as int) + fb =~= host.answers().skip(a0.len() as int));
        assert(host.offers().skip(o0.len() as int) + fo =~= host.offers().skip(o0.len() as int));
        assert(host.answers() =~= a0 + host.answers().skip(a0.len() as int));
        assert(host.offers() =~= o0 + host.offers().skip(o0.len() as int));
        lemma_queue_log(built0, host.built(), queue@, head as int);
        assert(queue@.take(head as int) =~= queue@);
        assert(host.built().skip(built0.len() as int) =~= raw_ids(queue@));
        assert forall|e: u64| #[trigger] tree@.dom().contains(e) && !dom0.contains(e) implies host.built().skip(
            built0.len() as int,
        ).contains(e) by {
            let k = choose|k: int| 1 <= k < queue@.len() && #[trigger] queue@[k].0 == e;
            assert(host.built().skip(built0.len() as int).contains(queue@[k].0));
        }
    }
    Ok(())
}

/// A build pass that stops at a failed placement stops in the state it failed in.
proof fn lemma_build_stops(
    cur: BuildState,
    parent: WidgetId,
    widgets: Seq<WidgetRefId>,
    j: int,
    head: int,
    s0: BuildState,
    builds: Seq<(u64, Seq<WidgetRefId>)>,
    offers: Seq<(u64, u64, ElementUpdate)>,
)
    requires
        forall|fb: Seq<(u64, Seq<WidgetRefId>)>, fo: Seq<(u64, u64, ElementUpdate)>| #[trigger] build_continues(
            cur,
            parent,
            widgets,
            j,
            head,
            fb,
            fo,
        ) == built_breadth_first(s0, 0, builds + fb, offers + fo),
    ensures
        built_breadth_first(s0, 0, builds, offers) == build_continues(
            cur,
            parent,
            widgets,
            j,
            head,
            Seq::empty(),
            Seq::empty(),
        ),
{
    let fb = Seq::<(u64, Seq<WidgetRefId>)>::empty();
    let fo = Seq::<(u64, u64, ElementUpdate)>::empty();
    assert(build_continues(cur, parent, widgets, j, head, fb, fo) == built_breadth_first(s0, 0, builds + fb, offers + fo));
    assert(builds + fb =~= builds);
    assert(offers + fo =~= offers);
}

/// One placement carries what is left of a build pass over to the next widget.
proof fn lemma_build_step(
    cur: BuildState,
    after: BuildState,
    parent: WidgetId,
    widgets: Seq<WidgetRefId>,
    j: int,
    head: int,
    s0: BuildState,
    builds: Seq<(u64, Seq<WidgetRefId>)>,
    offers: Seq<(u64, u64, ElementUpdate)>,
    offers_after: Seq<(u64, u64, ElementUpdate)>,
    used: bool,
    offer: (u64, u64, ElementUpdate),
)
    requires
        forall|fb: Seq<(u64, Seq<WidgetRefId>)>, fo: Seq<(u64, u64, ElementUpdate)>| #[trigger] build_continues(
            cur,
            parent,
            widgets,
            j,
            head,
            fb,
            fo,
        ) == built_breadth_first(s0, 0, builds + fb, offers + fo),
        forall|fb: Seq<(u64, Seq<WidgetRefId>)>, fo: Seq<(u64, u64, ElementUpdate)>| build_continues(
            cur,
            parent,
            widgets,
            j,
            head,
            fb,
            if used { seq![offer] + fo } else { fo },
        ) == #[trigger] build_continues(after, parent, widgets, j + 1, head, fb, fo),
        offers_after == (if used { offers.push(offer) } else { offers }),
    ensures
        forall|fb: Seq<(u64, Seq<WidgetRefId>)>, fo: Seq<(u64, u64, ElementUpdate)>| #[trigger] build_continues(
            after,
            parent,
            widgets,
            j + 1,
            head,
            fb,
            fo,
        ) == built_breadth_first(s0, 0, builds + fb, offers_after + fo),
{
    assert forall|fb: Seq<(u64, Seq<WidgetRefId>)>, fo: Seq<(u64, u64, ElementUpdate)>| #[trigger] build_continues(
        after,
        parent,
        widgets,
        j + 1,
        head,
        fb,
        fo,
    ) == built_breadth_first(s0, 0, builds + fb, offers_after + fo) by {
        let fo1 = if used { seq![offer] + fo } else { fo };
        assert(build_continues(cur, parent, widgets, j, head, fb, fo1) == built_breadth_first(s0, 0, builds + fb, offers + fo1));
        assert(offers + fo1 =~= offers_after + fo);
    }
}

/// What a log of builds made in queue order says: the queue's first `head` elements, each
/// once, the first of them first.
proof fn lemma_queue_log(built0: Seq<u64>, built: Seq<u64>, queue: Seq<WidgetId>, head: int)
    requires
        1 <= head <= queue.len(),
        built == built0 + queue.take(head).map_values(|w: WidgetId| w.0),
        forall|a: int, b: int| 0 <= a < b < queue.len() ==> #[trigger] queue[a].0 != #[trigger] queue[b].0,
    ensures
        built.len() > built0.len(),
        built == built0 + built.skip(built0.len() as int),
        built[built0.len() as int] == queue[0].0,
        built.skip(built0.len() as int).no_duplicates(),
        forall|e: u64|
            #[trigger] built.skip(built0.len() as int).contains(e) ==> exists|k: int|
                0 <= k < head && #[trigger] queue[k].0 == e,
        forall|k: int| 0 <= k < head ==> #[trigger] built.skip(built0.len() as int).contains(queue[k].0),
{
    let log = queue.take(head).map_values(|w: WidgetId| w.0);
    assert(built.skip(built0.len() as int) =~= log);
    assert(built[built0.len() as int] == log[0]);
    assert forall|e: u64| #[trigger] log.contains(e) implies exists|k: int| 0 <= k < head && #[trigger] queue[k].0 == e by {
        let k = choose|k: int| 0 <= k < log.len() && log[k] == e;
        assert(queue[k].0 == e);
    }
    assert forall|k: int| 0 <= k < head implies #[trigger] log.contains(queue[k].0) by {
        assert(log[k] == queue[k].0);
    }
    assert forall|a: int, b: int| 0 <= a < log.len() && 0 <= b < log.len() && a != b implies log[a] != log[b] by {
        if a < b {
            assert(queue[a].0 != queue[b].0);
        } else {
            assert(queue[b].0 != queue[a].0);
        }
    }
}

/// Whether `event` reports that the element `id` was destroyed.
pub open spec fn destroys_element(event: ElementEvent, id: u64) -> bool {
    event == ElementEvent::Destroyed { element_id: WidgetId(id) }
}

/// Removes the element `id` and, breadth-first, everything under it, reporting each removal.
/// Nothing happens where `id` is not held.
pub fn process_destroy<H: BuildHost>(
    tree: &mut WidgetTree,
    events: &mut Vec<ElementEvent>,
    id: WidgetId,
    host: &mut H,
)
    requires
        old(tree).wf(),
    ensures
        final(tree).wf(),
        final(host).built() == old(host).built(),
        final(host).answers() == old(host).answers(),
        final(host).offers() == old(host).offers(),
        final(host).lifecycle() == old(host).lifecycle() + final(events)@.skip(old(events)@.len() as int),
        final(tree).next_id() == old(tree).next_id(),
        final(events)@.len() >= old(events)@.len(),
        final(events)@.subrange(0, old(events)@.len() as int) == old(events)@,
        forall|k: int|
            old(events)@.len() <= k < final(events)@.len() ==> (#[trigger] final(events)@[k] is Destroyed),
        forall|x: u64|
            #[trigger] final(tree)@.dom().contains(x) <==> (old(tree)@.dom().contains(x) && !exists|k: int|
                old(events)@.len() <= k < final(events)@.len() && destroys_element(
                    #[trigger] final(events)@[k],
                    x,
                )),
        forall|k: int|
            old(events)@.len() <= k < final(events)@.len() ==> old(tree)@.dom().contains(
                event_element(#[trigger] final(events)@[k]),
            ),
        old(tree)@.dom().contains(id.0) ==> final(events)@.len() > old(events)@.len()
            && destroys_element(final(events)@[old(events)@.len() as int], id.0),
        !old(tree)@.dom().contains(id.0) ==> final(tree)@ == old(tree)@ && final(events)@ == old(events)@,
{
    let ghost dom0 = tree@.dom();
    let ghost tree0 = tree@;
    let ghost len0 = events@.len();
    let ghost events0 = events@;
    let mut queue: Vec<WidgetId> = Vec::new();
    queue.push(id);
    let mut head: usize = 0;
    while head < queue.len()
        invariant
            tree.wf(),
            head <= queue@.len(),
            queue@.len() >= 1,
            queue@[0] == id,
            tree.next_id() == old(tree).next_id(),
            dom0 == old(tree)@.dom(),
            tree0 == old(tree)@,
            events0 == old(events)@,
            len0 == events0.len(),
            events@.len() >= len0,
            events@.subrange(0, len0 as int) == events0,
            forall|k: int| len0 <= k < events@.len() ==> (#[trigger] events@[k] is Destroyed),
            forall|k: int| len0 <= k < events@.len() ==> dom0.contains(event_element(#[trigger] events@[k])),
            forall|x: u64|
                #[trigger] tree@.dom().contains(x) <==> (dom0.contains(x) && !exists|k: int|
                    len0 <= k < events@.len() && destroys_element(#[trigger] events@[k], x)),
            head == 0 ==> events@.len() == len0 && tree@ == tree0,
            head > 0 && dom0.contains(id.0) ==> events@.len() > len0 && destroys_element(events@[len0 as int], id.0),
            head > 0 && !dom0.contains(id.0) ==> events@.len() == len0 && tree@ == tree0,
            head > 1 ==> dom0.contains(id.0),
            !dom0.contains(id.0) ==> queue@.len() == 1,
            host.built() == old(host).built(),
            host.answers() == old(host).answers(),
            host.offers() == old(host).offers(),
            host.lifecycle() == old(host).lifecycle() + events@.skip(len0 as int),
        decreases tree.size(), queue@.len() - head,
    {
        let element = queue[head];
        head = head + 1;
        if tree.contains(element) {
            assert(dom0.contains(id.0));
            let children = tree.children_of(element);
            let mut k: usize = 0;
            while k < children.len()
                invariant
                    k <= children@.len(),
                    head <= queue@.len(),
                    queue@.len() >= 1,
                    queue@[0] == id,
                    dom0.contains(id.0),
                decreases children@.len() - k,
            {
                queue.push(children[k]);
                k = k + 1;
            }
            let ghost ev = events@;
            let ghost d = tree@.dom();
            host.unmount(element);
            events.push(ElementEvent::Destroyed { element_id: element });
            tree.remove(element);
            proof {
                assert(old(host).lifecycle() + events@.skip(len0 as int) =~= (old(host).lifecycle() + ev.skip(
                    len0 as int,
                )).push(ElementEvent::Destroyed { element_id: element }));
                assert(tree@.dom() =~= d.remove(element.0));
                assert(events@.subrange(0, len0 as int) =~= events0) by {
                    assert(ev.subrange(0, len0 as int) == events0);
                }
                assert forall|x: u64| #[trigger] tree@.dom().contains(x) <==> (dom0.contains(x) && !exists|k: int|
                    len0 <= k < events@.len() && destroys_element(#[trigger] events@[k], x)) by {
                    if x == element.0 {
                        assert(destroys_element(events@[ev.len() as int], x));
                    } else {
                        if exists|k: int| len0 <= k < events@.len() && destroys_element(#[trigger] events@[k], x) {
                            let k = choose|k: int| len0 <= k < events@.len() && destroys_element(#[trigger] events@[k], x);
                            assert(k < ev.len());
                            assert(destroys_element(ev[k], x));
                        }
                        if exists|k: int| len0 <= k < ev.len() && destroys_element(#[trigger] ev[k], x) {
                            let k = choose|k: int| len0 <= k < ev.len() && destroys_element(#[trigger] ev[k], x);
                            assert(events@[k] == ev[k]);
                        }
                    }
                }
                assert forall|k: int| len0 <= k < events@.len() implies dom0.contains(event_element(#[trigger] events@[k])) by {
                    if k < ev.len() {
                        assert(events@[k] == ev[k]);
                    }
                }
                assert forall|k: int| len0 <= k < events@.len() implies (#[trigger] events@[k] is Destroyed) by {
                    if k < ev.len() {
                        assert(events@[k] == ev[k]);
                    }
                }
                if head == 1 {
                    assert(element == id);
                }
            }
        }
    }
}

/// The element an event is about.
pub open spec fn event_element(event: ElementEvent) -> u64 {
    match event {
        ElementEvent::Spawned { element_id, .. } => element_id.0,
        ElementEvent::Rebuilt { element_id } => element_id.0,
        ElementEvent::Reparent { element_id, .. } => element_id.0,
        ElementEvent::Destroyed { element_id } => element_id.0,
        ElementEvent::Draw { element_id } => element_id.0,
    }
}

/// Rebuilds the element `id`: reports the rebuild, builds it again through `host`, then
/// removes each of its former children that the build did not retain.
pub fn process_rebuild<H: BuildHost>(
    tree: &mut WidgetTree,
    events: &mut Vec<ElementEvent>,
    retained: &mut Vec<WidgetId>,
    rebuilds: &mut Vec<WidgetId>,
    id: WidgetId,
    host: &mut H,
) -> (outcome: Result<(), BuildError>)
    requires
        old(tree).wf(),
        old(tree)@.dom().contains(id.0),
    ensures
        final(tree).wf(),
        final(events)@.len() > old(events)@.len(),
        final(events)@.subrange(0, old(events)@.len() as int) == old(events)@,
        final(events)@[old(events)@.len() as int] == (ElementEvent::Rebuilt { element_id: id }),
        final(host).built().len() > old(host).built().len(),
        final(host).built()[old(host).built().len() as int] == id.0,
        final(host).lifecycle() == old(host).lifecycle() + final(events)@.skip(old(events)@.len() + 1 as int),
        final(rebuilds)@.len() >= old(rebuilds)@.len(),
        final(rebuilds)@.subrange(0, old(rebuilds)@.len() as int) == old(rebuilds)@,
        outcome is Ok ==> forall|c: u64|
            #[trigger] old(tree)@[id.0].1.contains(c) && !final(retained)@.contains(WidgetId(c))
                ==> !final(tree)@.dom().contains(c),
{
    let ghost events0 = events@;
    events.push(ElementEvent::Rebuilt { element_id: id });
    let ghost events1 = events@;
    let children = tree.children_of(id);
    let ghost kids = raw_ids(children@);
    let ghost tree0 = tree@;
    let built = process_build(tree, events, retained, rebuilds, id, host);
    proof {
        assert(events@[events0.len() as int] == events@.subrange(0, events1.len() as int)[events0.len() as int]);
    }
    if built.is_err() {
        return built;
    }
    let ghost built1 = host.built();
    let mut k: usize = 0;
    while k < children.len()
        invariant
            tree.wf(),
            k <= children@.len(),
            kids == raw_ids(children@),
            kids == tree0[id.0].1,
            events@.len() >= events1.len(),
            events@.subrange(0, events1.len() as int) == events1,
            events1 == events0.push(ElementEvent::Rebuilt { element_id: id }),
            events0 == old(events)@,
            host.built() == built1,
            built1.len() > old(host).built().len(),
            built1[old(host).built().len() as int] == id.0,
            host.lifecycle() == old(host).lifecycle() + events@.skip(events1.len() as int),
            forall|j: int|
                0 <= j < k && !retained@.contains(children@[j]) ==> !tree@.dom().contains(
                    #[trigger] children@[j].0,
                ),
        decreases children@.len() - k,
    {
        let child = children[k];
        if !holds_element(retained, child) {
            let ghost before = tree@.dom();
            let ghost ev = events@;
            process_destroy(tree, events, child, host);
            proof {
                lemma_log_follows(old(host).lifecycle(), ev, events@, events1.len() as int);
                assert(events@.subrange(0, events1.len() as int) =~= events1) by {
                    assert(events@.subrange(0, ev.len() as int) == ev);
                    assert(ev.subrange(0, events1.len() as int) == events1);
                }
                assert forall|x: u64| #[trigger] tree@.dom().contains(x) implies before.contains(x) by {}
                if before.contains(child.0) {
                    assert(destroys_element(events@[ev.len() as int], child.0));
                }
            }
        }
        k = k + 1;
    }
    proof {
        assert(events@[events0.len() as int] == events1[events0.len() as int]);
        assert forall|c: u64| #[trigger] tree0[id.0].1.contains(c) && !retained@.contains(WidgetId(c))
            implies !tree@.dom().contains(c) by {
            let j = choose|j: int| 0 <= j < kids.len() && kids[j] == c;
            assert(children@[j].0 == c);
            assert(children@[j] == WidgetId(c));
        }
    }
    Ok(())
}

/// A change queued for the element tree.
#[derive(Debug, Clone, Copy, PartialEq, Eq)]
pub enum Modify {
    /// Spawn an element for the widget under the parent, or as the root.
    Spawn(Option<WidgetId>, WidgetRefId),
    /// Rebuild the element.
    Rebuild(WidgetId),
    /// Destroy the element and everything under it.
    Destroy(WidgetId),
}

/// Why a spawn of `widget` under `parent` is refused, if it is: the parent is not held, the
/// widget already has an element, or the tree cannot number another element.
pub open spec fn spawn_refusal(
    tree: Map<u64, NodeView>,
    next_id: u64,
    parent: Option<WidgetId>,
    widget: WidgetRefId,
) -> Option<BuildError> {
    if !parent_held(tree, parent) {
        Some(BuildError::MissingParent)
    } else if exists|e: u64| #[trigger] tree.dom().contains(e) && tree[e].2 == widget.0 {
        Some(BuildError::DuplicateWidget(widget))
    } else if next_id == u64::MAX {
        Some(BuildError::TreeFull)
    } else {
        None
    }
}

/// The tree, the next element id, the events reported, the retained elements, the elements
/// queued for rebuild, and the elements to redraw, as queued modifications are applied.
pub type ModifyState = (Map<u64, NodeView>, u64, Seq<ElementEvent>, Seq<WidgetId>, Seq<WidgetId>, Seq<WidgetId>);

/// The modification state of a tree, the events so far, the retained elements, the
/// elements queued for rebuild, and the elements to redraw.
pub open spec fn modify_state(
    tree: WidgetTree,
    events: Seq<ElementEvent>,
    retained: Seq<WidgetId>,
    rebuilds: Seq<WidgetId>,
    redraw: Seq<WidgetId>,
) -> ModifyState {
    (tree@, tree.next_id(), events, retained, rebuilds, redraw)
}

/// The event a modification reports first when applied to `st`, if it reports one: the
/// rebuild or destruction of a held element, or the spawn of a widget that is not refused.
pub open spec fn first_report(st: ModifyState, modification: Modify) -> Option<ElementEvent> {
    match modification {
        Modify::Spawn(parent, widget) => if spawn_refusal(st.0, st.1, parent, widget) is None {
            Some(ElementEvent::Spawned { parent_id: parent, element_id: WidgetId(st.1) })
        } else {
            None
        },
        Modify::Rebuild(id) => if st.0.dom().contains(id.0) {
            Some(ElementEvent::Rebuilt { element_id: id })
        } else {
            None
        },
        Modify::Destroy(id) => if st.0.dom().contains(id.0) {
            Some(ElementEvent::Destroyed { element_id: id })
        } else {
            None
        },
    }
}

/// Whether applying `modification` to `before` can reach `after` with `error`: events and
/// rebuild requests are only appended, and the first event reported is the modification's
/// own (see [`first_report`]); a refused spawn and a rebuild of an element not held fail
/// and report nothing; a spawn adds its element; a rebuild marks its element for redrawing
/// and, where it succeeds, leaves none of the element's former children that it did not
/// retain; a destroy succeeds, removes its element and adds none.
#[verifier::opaque]
pub open spec fn applies_modification(
    before: ModifyState,
    modification: Modify,
    after: ModifyState,
    error: Option<BuildError>,
) -> bool {
    &&& after.2.len() >= before.2.len()
    &&& after.2.subrange(0, before.2.len() as int) == before.2
    &&& after.4.len() >= before.4.len()
    &&& after.4.subrange(0, before.4.len() as int) == before.4
    &&& match first_report(before, modification) {
        Some(event) => after.2.len() > before.2.len() && after.2[before.2.len() as int] == event,
        None => true,
    }
    &&& match modification {
        Modify::Spawn(parent, widget) => {
            &&& after.5 == before.5
            &&& match spawn_refusal(before.0, before.1, parent, widget) {
                Some(refusal) => error == Some(refusal) && after.0 == before.0 && after.2 == before.2,
                None => after.0.dom().contains(before.1),
            }
        },
        Modify::Rebuild(id) => {
            &&& after.5 == (if before.5.contains(id) {
                before.5
            } else {
                before.5.push(id)
            })
            &&& !before.0.dom().contains(id.0) ==> error == Some(BuildError::MissingElement(id)) && after.2 == before.2
            &&& before.0.dom().contains(id.0) && error is None ==> forall|c: u64|
                #[trigger] before.0[id.0].1.contains(c) && !after.3.contains(WidgetId(c)) ==> !after.0.dom().contains(c)
        },
        Modify::Destroy(id) => {
            &&& error is None
            &&& after.5 == before.5
            &&& !after.0.dom().contains(id.0)
            &&& after.0.dom().subset_of(before.0.dom())
        },
    }
}

/// A successful rebuild of a held element leaves none of its former children that it did not
/// retain, and reports the rebuild first.
pub proof fn lemma_rebuild_drops_unbuilt_children(before: ModifyState, id: WidgetId, after: ModifyState, c: u64)
    requires
        applies_modification(before, Modify::Rebuild(id), after, None),
        before.0.dom().contains(id.0),
        before.0[id.0].1.contains(c),
        !after.3.contains(WidgetId(c)),
    ensures
        !after.0.dom().contains(c),
        after.2.len() > before.2.len(),
        after.2[before.2.len() as int] == (ElementEvent::Rebuilt { element_id: id }),
{
    reveal(applies_modification);
}

/// Applies one queued change: a spawn creates the element and builds it, a rebuild marks
/// the element for redrawing and rebuilds it, a destroy removes it with everything under it.
/// Rebuilds that builds ask for are appended to `rebuilds`, for the caller to queue.
pub fn process_modification<H: BuildHost>(
    tree: &mut WidgetTree,
    events: &mut Vec<ElementEvent>,
    retained: &mut Vec<WidgetId>,
    rebuilds: &mut Vec<WidgetId>,
    needs_redraw: &mut Vec<WidgetId>,
    modification: Modify,
    host: &mut H,
) -> (outcome: Result<(), BuildError>)
    requires
        old(tree).wf(),
    ensures
        applies_modification(
            modify_state(*old(tree), old(events)@, old(retained)@, old(rebuilds)@, old(needs_redraw)@),
            modification,
            modify_state(*final(tree), final(events)@, final(retained)@, final(rebuilds)@, final(needs_redraw)@),
            build_error(outcome),
        ),
        final(tree).wf(),
        final(rebuilds)@.len() >= old(rebuilds)@.len(),
        final(rebuilds)@.subrange(0, old(rebuilds)@.len() as int) == old(rebuilds)@,
        final(events)@.len() >= old(events)@.len(),
        final(events)@.subrange(0, old(events)@.len() as int) == old(events)@,
        match modification {
            Modify::Spawn(parent, widget) => {
                &&& final(needs_redraw)@ == old(needs_redraw)@
                &&& match spawn_refusal(old(tree)@, old(tree).next_id(), parent, widget) {
                    Some(error) => {
                        &&& outcome == Err::<(), BuildError>(error)
                        &&& final(tree)@ == old(tree)@
                        &&& final(events)@ == old(events)@
                    },
                    None => {
                        &&& final(host).lifecycle() == old(host).lifecycle() + final(events)@.skip(
                            old(events)@.len() as int,
                        )
                        &&& final(events)@.len() > old(events)@.len()
                        &&& final(events)@[old(events)@.len() as int] == (ElementEvent::Spawned {
                            parent_id: parent,
                            element_id: WidgetId(old(tree).next_id()),
                        })
                        &&& final(tree)@.dom().contains(old(tree).next_id())
                        &&& final(host).built().len() > old(host).built().len()
                        &&& final(host).built()[old(host).built().len() as int] == old(tree).next_id()
                    },
                }
            },
            Modify::Rebuild(id) => {
                &&& final(needs_redraw)@ == (if old(needs_redraw)@.contains(id) {
                    old(needs_redraw)@
                } else {
                    old(needs_redraw)@.push(id)
                })
                &&& !old(tree)@.dom().contains(id.0) ==> outcome == Err::<(), BuildError>(
                    BuildError::MissingElement(id),
                ) && final(events)@ == old(events)@
                &&& old(tree)@.dom().contains(id.0) ==> final(events)@[old(events)@.len() as int] == (
                ElementEvent::Rebuilt { element_id: id })
                &&& old(tree)@.dom().contains(id.0) ==> final(host).lifecycle() == old(host).lifecycle()
                    + final(events)@.skip(old(events)@.len() + 1 as int)
                &&& old(tree)@.dom().contains(id.0) && outcome is Ok ==> forall|c: u64|
                    #[trigger] old(tree)@[id.0].1.contains(c) && !final(retained)@.contains(WidgetId(c))
                        ==> !final(tree)@.dom().contains(c)
            },
            Modify::Destroy(id) => {
                &&& outcome is Ok
                &&& final(host).lifecycle() == old(host).lifecycle() + final(events)@.skip(
                    old(events)@.len() as int,
                )
                &&& final(needs_redraw)@ == old(needs_redraw)@
                &&& !final(tree)@.dom().contains(id.0)
                &&& forall|x: u64| #[trigger] final(tree)@.dom().contains(x) ==> old(tree)@.dom().contains(x)
            },
        },
{
    proof {
        reveal(applies_modification);
    }
    match modification {
        Modify::Spawn(parent, widget) => {
            let parent_ok = match parent {
                Some(p) => tree.contains(p),
                None => true,
            };
            if !parent_ok {
                proof {
                    assert(events@.subrange(0, events@.len() as int) =~= events@);
                    assert(rebuilds@.subrange(0, rebuilds@.len() as int) =~= rebuilds@);
                }
                return Err(BuildError::MissingParent);
            }
            if let Some(_) = tree.find_widget(widget) {
                proof {
                    assert(events@.subrange(0, events@.len() as int) =~= events@);
                    assert(rebuilds@.subrange(0, rebuilds@.len() as int) =~= rebuilds@);
                }
                return Err(BuildError::DuplicateWidget(widget));
            }
            if !tree.has_room() {
                proof {
                    assert(events@.subrange(0, events@.len() as int) =~= events@);
                    assert(rebuilds@.subrange(0, rebuilds@.len() as int) =~= rebuilds@);
                }
                return Err(BuildError::TreeFull);
            }
            match process_spawn(tree, events, parent, widget, None, host) {
                SpawnResult::Created(id) => {
                    let ghost ev = events@;
                    let built = process_build(tree, events, retained, rebuilds, id, host);
                    proof {
                        lemma_log_follows(old(host).lifecycle(), ev, events@, old(events)@.len() as int);
                        assert(events@[ev.len() - 1] == events@.subrange(0, ev.len() as int)[ev.len() - 1]);
                        assert(events@.subrange(0, old(events)@.len() as int) =~= old(events)@) by {
                            assert(events@.subrange(0, ev.len() as int) == ev);
                            assert(ev.subrange(0, old(events)@.len() as int) =~= old(events)@);
                        }
                    }
                    built
                },
                SpawnResult::Retained { .. } => {
                    assert(rebuilds@.subrange(0, rebuilds@.len() as int) =~= rebuilds@);
                    Ok(())
                },
            }
        },
        Modify::Rebuild(id) => {
            if !holds_element(needs_redraw, id) {
                needs_redraw.push(id);
            }
            if !tree.contains(id) {
                proof {
                    assert(events@.subrange(0, events@.len() as int) =~= events@);
                    assert(rebuilds@.subrange(0, rebuilds@.len() as int) =~= rebuilds@);
                }
                return Err(BuildError::MissingElement(id));
            }
            process_rebuild(tree, events, retained, rebuilds, id, host)
        },
        Modify::Destroy(id) => {
            process_destroy(tree, events, id, host);
            proof {
                if old(tree)@.dom().contains(id.0) {
                    assert(destroys_element(events@[old(events)@.len() as int], id.0));
                }
                assert(rebuilds@.subrange(0, rebuilds@.len() as int) =~= rebuilds@);
            }
            Ok(())
        },
    }
}

/// Where an update of the element tree stands, between the steps its driver runs.
#[derive(Debug, Clone, Copy, PartialEq, Eq)]
pub enum UpdateStage {
    /// Nothing has run yet.
    Start,
    /// Queued changes, dirty elements and callbacks were just flushed.
    Changed,
    /// Layout was just flushed.
    LaidOut,
}

/// What the driver of an update runs next.
#[derive(Debug, Clone, Copy, PartialEq, Eq)]
pub enum UpdateAction {
    /// Flush queued modifications, dirty elements and callbacks.
    FlushChanges,
    /// Lay the tree out and drop redraw requests for elements no longer held.
    FlushLayout,
    /// The tree is stable: report the events.
    Finish,
}

/// The next step of an update, given the stage reached and whether changes are pending. An
/// update with nothing pending finishes at once; otherwise changes are flushed until none are
/// pending, then layout runs, and the whole repeats until layout leaves nothing pending.
pub fn update_step(stage: UpdateStage, has_changes: bool) -> (action: UpdateAction)
    ensures
        action == (if has_changes {
            UpdateAction::FlushChanges
        } else {
            match stage {
                UpdateStage::Changed => UpdateAction::FlushLayout,
                _ => UpdateAction::Finish,
            }
        }),
{
    if has_changes {
        return UpdateAction::FlushChanges;
    }
    match stage {
        UpdateStage::Changed => UpdateAction::FlushLayout,
        UpdateStage::Start | UpdateStage::LaidOut => UpdateAction::Finish,
    }
}

/// The `Draw` events for the elements of `ids` that the tree still holds, in order.
pub open spec fn draw_events(tree: Map<u64, NodeView>, ids: Seq<WidgetId>) -> Seq<ElementEvent>
    decreases ids.len(),
{
    if ids.len() == 0 {
        Seq::empty()
    } else {
        let rest = draw_events(tree, ids.drop_last());
        let last = ids.last();
        if tree.dom().contains(last.0) {
            rest.push(ElementEvent::Draw { element_id: last })
        } else {
            rest
        }
    }
}

/// Appends a `Draw` event for each element of `needs_redraw` that the tree still holds.
pub fn push_draw_events(tree: &WidgetTree, needs_redraw: &Vec<WidgetId>, events: &mut Vec<ElementEvent>)
    requires
        tree.wf(),
    ensures
        final(events)@ == old(events)@ + draw_events(tree@, needs_redraw@),
{
    let mut k: usize = 0;
    while k < needs_redraw.len()
        invariant
            tree.wf(),
            k <= needs_redraw@.len(),
            events@ == old(events)@ + draw_events(tree@, needs_redraw@.take(k as int)),
        decreases needs_redraw@.len() - k,
    {
        let id = needs_redraw[k];
        proof {
            assert(needs_redraw@.take(k + 1 as int).drop_last() =~= needs_redraw@.take(k as int));
        }
        if tree.contains(id) {
            events.push(ElementEvent::Draw { element_id: id });
        }
        proof {
            assert(old(events)@ + draw_events(tree@, needs_redraw@.take(k as int)).push(ElementEvent::Draw { element_id: id })
                =~= (old(events)@ + draw_events(tree@, needs_redraw@.take(k as int))).push(ElementEvent::Draw { element_id: id }));
        }
        k = k + 1;
    }
    proof {
        assert(needs_redraw@.take(k as int) =~= needs_redraw@);
    }
}

} // verus!
