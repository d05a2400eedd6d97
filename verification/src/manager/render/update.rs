use vstd::prelude::*;

use super::errors::RenderError;
use super::events::RenderEvent;
use super::layers::{drawn_into, without_commands, LayerForest};
use super::{next_layer, LayerId, WidgetLayers};
use crate::manager::spawn::{event_element, ElementEvent};
use crate::manager::tree::{lists_tree, WidgetTree};
use crate::manager::widget::WidgetId;

verus! {

/// A layer a canvas opens: its style and what is drawn into it.
pub struct CanvasLayer<D, S> {
    pub style: S,
    pub canvas: LayerCanvas<D, S>,
}

/// What a widget draws: commands for the layer it stands in, the layers it opens under that
/// layer, and a last layer that what follows the widget draws into.
pub struct LayerCanvas<D, S> {
    pub head: Vec<D>,
    pub children: Vec<CanvasLayer<D, S>>,
    pub tail: Option<Box<CanvasLayer<D, S>>>,
}

/// Whether every event of `events` from `start` on spawns a layer of `after` that `before`
/// did not hold.
pub open spec fn spawns_new_layers<D, S>(
    events: Seq<RenderEvent>,
    start: int,
    before: Map<u64, super::layers::LayerView<D, S>>,
    after: Map<u64, super::layers::LayerView<D, S>>,
) -> bool {
    forall|k: int|
        start <= k < events.len() ==> match #[trigger] events[k] {
            RenderEvent::Spawned { layer_id, .. } => !before.dom().contains(layer_id.0) && after.dom().contains(
                layer_id.0,
            ),
            _ => false,
        }
}

/// Whether `after` is `before` with `widget` drawn into the layer `target` names, where
/// that layer is held, and every other layer `before` holds unchanged.
pub open spec fn drew_target<D, S>(
    before: Map<u64, super::layers::LayerView<D, S>>,
    after: Map<u64, super::layers::LayerView<D, S>>,
    target: Option<LayerId>,
    widget: WidgetId,
    head: Seq<D>,
) -> bool {
    &&& forall|id: u64|
        #[trigger] before.dom().contains(id) && target != Some(LayerId(id)) ==> after.dom().contains(id)
            && after[id] == before[id]
    &&& match target {
        Some(t) => before.dom().contains(t.0) ==> after.dom().contains(t.0) && after[t.0] == drawn_into(
            before[t.0],
            widget,
            head,
        ),
        None => true,
    }
}

/// The layer tree, the next layer id, the layer events reported, and the widget's child and
/// tail layers, as a canvas is drawn into them.
pub type DrawState<D, S> = (
    Map<u64, super::layers::LayerView<D, S>>,
    u64,
    Seq<RenderEvent>,
    Seq<LayerId>,
    Option<LayerId>,
);

/// The draw state of a layer forest, the events reported so far, and a widget's layers.
pub open spec fn draw_state<D, S>(layers: LayerForest<D, S>, events: Seq<RenderEvent>, owned: WidgetLayers) -> DrawState<
    D,
    S,
> {
    (layers@, layers.next_id(), events, owned.children@, owned.tail)
}

/// The error an update result carries, if any.
pub open spec fn result_error(result: Result<Vec<RenderEvent>, RenderError>) -> Option<RenderError> {
    match result {
        Ok(_) => None,
        Err(e) => Some(e),
    }
}

/// The error a result carries, if any.
pub open spec fn error_of(outcome: Result<(), RenderError>) -> Option<RenderError> {
    match outcome {
        Ok(_) => None,
        Err(e) => Some(e),
    }
}

/// The raw id of an optional layer.
pub open spec fn raw_layer(layer: Option<LayerId>) -> Option<u64> {
    match layer {
        Some(l) => Some(l.0),
        None => None,
    }
}

/// `st` with a layer for `widget` added under `parent` with `style`, reported as spawned
/// under `reported`.
pub open spec fn with_layer<D, S>(st: DrawState<D, S>, widget: WidgetId, parent: Option<LayerId>, style: S, reported: Option<LayerId>) -> DrawState<D, S> {
    (
        st.0.insert(st.1, (raw_layer(parent), Some(style), seq![widget], Seq::<(WidgetId, Seq<D>)>::empty())),
        (st.1 + 1) as u64,
        st.2.push(RenderEvent::Spawned { parent_id: reported, layer_id: LayerId(st.1) }),
        st.3,
        st.4,
    )
}

/// Drawing `canvas` for `widget` from `st`: where there is no target and the head holds
/// commands, a root layer is added (reported by no event) and becomes the target; a target
/// that is not held fails with `MissingLayer`; the head is drawn into the target; then the
/// child layers and the tail follow. Running out of layer ids fails with `Full`. Returns the
/// state reached and the error, if any.
pub open spec fn spawned_canvas<D, S>(
    st: DrawState<D, S>,
    widget: WidgetId,
    target: Option<LayerId>,
    canvas: LayerCanvas<D, S>,
) -> (DrawState<D, S>, Option<RenderError>)
    decreases canvas, canvas.children@.len() + 2,
{
    if target is None && canvas.head@.len() > 0 {
        if st.1 == u64::MAX {
            (st, Some(RenderError::Full))
        } else {
            let root = LayerId(st.1);
            let st1 = (
                st.0.insert(st.1, (None, None, Seq::<WidgetId>::empty(), Seq::<(WidgetId, Seq<D>)>::empty())),
                (st.1 + 1) as u64,
                st.2,
                st.3,
                st.4,
            );
            let st2 = (st1.0.insert(root.0, drawn_into(st1.0[root.0], widget, canvas.head@)), st1.1, st1.2, st1.3, st1.4);
            spawned_children(st2, widget, Some(root), canvas, 0)
        }
    } else {
        match target {
            Some(t) => if !st.0.dom().contains(t.0) {
                (st, Some(RenderError::MissingLayer { layer_id: t }))
            } else {
                let st1 = (st.0.insert(t.0, drawn_into(st.0[t.0], widget, canvas.head@)), st.1, st.2, st.3, st.4);
                spawned_children(st1, widget, target, canvas, 0)
            },
            None => spawned_children(st, widget, None, canvas, 0),
        }
    }
}

/// Drawing the child layers of `canvas` from the `i`th on, each added under `target`,
/// recorded as the widget's and drawn in turn, then its tail.
pub open spec fn spawned_children<D, S>(
    st: DrawState<D, S>,
    widget: WidgetId,
    target: Option<LayerId>,
    canvas: LayerCanvas<D, S>,
    i: int,
) -> (DrawState<D, S>, Option<RenderError>)
    decreases canvas, if 0 <= i < canvas.children@.len() { canvas.children@.len() - i + 1 } else { 1 },
{
    if 0 <= i < canvas.children@.len() {
        let child = canvas.children@[i];
        if st.1 == u64::MAX {
            (st, Some(RenderError::Full))
        } else {
            let id = LayerId(st.1);
            let added = with_layer(st, widget, target, child.style, target);
            let st1 = (added.0, added.1, added.2, added.3.push(id), added.4);
            proof {
                lemma_child_decreases(canvas, i);
            }
            let (st2, error) = spawned_canvas(st1, widget, Some(id), child.canvas);
            if error is Some {
                (st2, error)
            } else {
                spawned_children(st2, widget, target, canvas, i + 1)
            }
        }
    } else {
        spawned_tail(st, widget, target, canvas)
    }
}

/// Drawing the tail layer of `canvas`, where it has one: added under `target`, reported under
/// the widget's previous tail (or the target), it becomes the widget's tail, the previous one
/// joining its child layers, and is drawn in turn.
pub open spec fn spawned_tail<D, S>(
    st: DrawState<D, S>,
    widget: WidgetId,
    target: Option<LayerId>,
    canvas: LayerCanvas<D, S>,
) -> (DrawState<D, S>, Option<RenderError>)
    decreases canvas, 0int,
{
    match canvas.tail {
        Some(tail) => if st.1 == u64::MAX {
            (st, Some(RenderError::Full))
        } else {
            let id = LayerId(st.1);
            let reported = match st.4 {
                Some(previous) => Some(previous),
                None => target,
            };
            let added = with_layer(st, widget, target, tail.style, reported);
            let children = match st.4 {
                Some(previous) => added.3.push(previous),
                None => added.3,
            };
            spawned_canvas((added.0, added.1, added.2, children, Some(id)), widget, Some(id), tail.canvas)
        },
        None => (st, None),
    }
}

/// Whether layer `x` is held in `m` and is one of `tops`, or lies below one through at most
/// `fuel` parent links, every layer on the way held in `m`.
pub open spec fn under<D, S>(m: Map<u64, super::layers::LayerView<D, S>>, tops: Set<u64>, x: u64, fuel: nat) -> bool
    decreases fuel,
{
    m.dom().contains(x) && (tops.contains(x) || (fuel > 0 && match m[x].0 {
        Some(p) => under(m, tops, p, (fuel - 1) as nat),
        None => false,
    }))
}

/// Whether layer `x` is held in `m` and is one of `tops` or lies below one.
pub open spec fn descends<D, S>(m: Map<u64, super::layers::LayerView<D, S>>, tops: Set<u64>, x: u64) -> bool {
    exists|fuel: nat| #[trigger] under(m, tops, x, fuel)
}

/// The layers a widget owns, as ids: its child layers and its tail.
pub open spec fn owned_roots(owned: OwnedView) -> Set<u64> {
    Set::new(|x: u64| (exists|k: int| 0 <= k < owned.1.len() && #[trigger] owned.1[k].0 == x) || owned.2 == Some(LayerId(x)))
}

/// The layers a widget's record names.
pub open spec fn owned_view(owned: WidgetLayers) -> OwnedView {
    (owned.head, owned.children@, owned.tail)
}

/// What a widget owns: its head layer, the child layers it opened, and its tail layer.
pub type OwnedView = (Option<LayerId>, Seq<LayerId>, Option<LayerId>);

/// `m` with `widget`'s commands left out of the layer `head`, where that layer is held.
pub open spec fn commands_dropped<D, S>(m: Map<u64, super::layers::LayerView<D, S>>, head: Option<LayerId>, widget: WidgetId) -> Map<
    u64,
    super::layers::LayerView<D, S>,
> {
    match head {
        Some(h) => if m.dom().contains(h.0) {
            m.insert(h.0, (m[h.0].0, m[h.0].1, m[h.0].2, without_commands(m[h.0].3, widget)))
        } else {
            m
        },
        None => m,
    }
}

/// Removing a layer just processed keeps every other held layer below the layers still to
/// process, where the layer's children join them.
proof fn lemma_under_step<D, S>(
    m: Map<u64, super::layers::LayerView<D, S>>,
    tops: Set<u64>,
    next: Set<u64>,
    x: u64,
    y: u64,
    fuel: nat,
)
    requires
        under(m, tops, y, fuel),
        y != x,
        forall|z: u64| tops.contains(z) && z != x ==> #[trigger] next.contains(z),
        forall|c: u64| #[trigger] m.dom().contains(c) && m[c].0 == Some(x) && c != x ==> next.contains(c),
    ensures
        under(m.remove(x), next, y, fuel),
    decreases fuel,
{
    if !tops.contains(y) {
        let p = m[y].0->Some_0;
        if p == x {
            assert(next.contains(y));
        } else {
            lemma_under_step(m, tops, next, x, p, (fuel - 1) as nat);
        }
    }
}

/// The layers of `queue` from position `i` on.
pub open spec fn pending(queue: Seq<LayerId>, i: int) -> Set<u64> {
    Set::new(|z: u64| exists|j: int| i <= j < queue.len() && #[trigger] queue[j].0 == z)
}

/// Whether `events` from `start` on report the layer `x` destroyed.
pub open spec fn reported_destroyed(events: Seq<RenderEvent>, start: int, x: u64) -> bool {
    exists|k: int| start <= k < events.len() && #[trigger] events[k] == (RenderEvent::Destroyed { layer_id: LayerId(x) })
}

/// A layer below `tops` stays below what is left of them once a layer that is not held leaves.
proof fn lemma_under_keep<D, S>(
    m: Map<u64, super::layers::LayerView<D, S>>,
    tops: Set<u64>,
    next: Set<u64>,
    x: u64,
    y: u64,
    fuel: nat,
)
    requires
        under(m, tops, y, fuel),
        !m.dom().contains(x),
        forall|z: u64| tops.contains(z) && z != x ==> #[trigger] next.contains(z),
    ensures
        under(m, next, y, fuel),
    decreases fuel,
{
    if !tops.contains(y) {
        let p = m[y].0->Some_0;
        lemma_under_keep(m, tops, next, x, p, (fuel - 1) as nat);
    }
}

/// Nothing lies below no layer.
proof fn lemma_under_nothing<D, S>(m: Map<u64, super::layers::LayerView<D, S>>, tops: Set<u64>, y: u64, fuel: nat)
    requires
        tops == Set::<u64>::empty(),
    ensures
        !under(m, tops, y, fuel),
    decreases fuel,
{
    if fuel > 0 && m.dom().contains(y) {
        match m[y].0 {
            Some(p) => lemma_under_nothing(m, tops, p, (fuel - 1) as nat),
            None => {},
        }
    }
}

/// A layer whose parent lies below `tops` lies below them too.
proof fn lemma_under_child<D, S>(m: Map<u64, super::layers::LayerView<D, S>>, tops: Set<u64>, c: u64, fuel: nat)
    requires
        m.dom().contains(c),
        m[c].0 is Some,
        under(m, tops, m[c].0->Some_0, fuel),
    ensures
        under(m, tops, c, fuel + 1),
{
}

/// Whether two draw states agree on everything but the events reported.
pub open spec fn agree_but_events<D, S>(a: DrawState<D, S>, b: DrawState<D, S>) -> bool {
    a.0 == b.0 && a.1 == b.1 && a.3 == b.3 && a.4 == b.4
}

/// Drawing a canvas from states that differ only in the events reported reaches states that
/// differ only there, with the same error.
pub proof fn lemma_canvas_agree<D, S>(
    s1: DrawState<D, S>,
    s2: DrawState<D, S>,
    widget: WidgetId,
    target: Option<LayerId>,
    canvas: LayerCanvas<D, S>,
)
    requires
        agree_but_events(s1, s2),
    ensures
        agree_but_events(spawned_canvas(s1, widget, target, canvas).0, spawned_canvas(s2, widget, target, canvas).0),
        spawned_canvas(s1, widget, target, canvas).1 == spawned_canvas(s2, widget, target, canvas).1,
    decreases canvas, canvas.children@.len() + 2,
{
    if target is None && canvas.head@.len() > 0 {
        if s1.1 != u64::MAX {
            let root = LayerId(s1.1);
            let a1 = (
                s1.0.insert(s1.1, (None, None, Seq::<WidgetId>::empty(), Seq::<(WidgetId, Seq<D>)>::empty())),
                (s1.1 + 1) as u64,
                s1.2,
                s1.3,
                s1.4,
            );
            let a2 = (
                s2.0.insert(s2.1, (None, None, Seq::<WidgetId>::empty(), Seq::<(WidgetId, Seq<D>)>::empty())),
                (s2.1 + 1) as u64,
                s2.2,
                s2.3,
                s2.4,
            );
            let b1 = (a1.0.insert(root.0, drawn_into(a1.0[root.0], widget, canvas.head@)), a1.1, a1.2, a1.3, a1.4);
            let b2 = (a2.0.insert(root.0, drawn_into(a2.0[root.0], widget, canvas.head@)), a2.1, a2.2, a2.3, a2.4);
            lemma_children_agree(b1, b2, widget, Some(root), canvas, 0);
        }
    } else {
        match target {
            Some(t) => if s1.0.dom().contains(t.0) {
                let b1 = (s1.0.insert(t.0, drawn_into(s1.0[t.0], widget, canvas.head@)), s1.1, s1.2, s1.3, s1.4);
                let b2 = (s2.0.insert(t.0, drawn_into(s2.0[t.0], widget, canvas.head@)), s2.1, s2.2, s2.3, s2.4);
                lemma_children_agree(b1, b2, widget, target, canvas, 0);
            },
            None => {
                lemma_children_agree(s1, s2, widget, None, canvas, 0);
            },
        }
    }
}

/// The child-layer step of [`lemma_canvas_agree`].
pub proof fn lemma_children_agree<D, S>(
    s1: DrawState<D, S>,
    s2: DrawState<D, S>,
    widget: WidgetId,
    target: Option<LayerId>,
    canvas: LayerCanvas<D, S>,
    i: int,
)
    requires
        agree_but_events(s1, s2),
    ensures
        agree_but_events(
            spawned_children(s1, widget, target, canvas, i).0,
            spawned_children(s2, widget, target, canvas, i).0,
        ),
        spawned_children(s1, widget, target, canvas, i).1 == spawned_children(s2, widget, target, canvas, i).1,
    decreases canvas, if 0 <= i < canvas.children@.len() { canvas.children@.len() - i + 1 } else { 1 },
{
    if 0 <= i < canvas.children@.len() {
        let child = canvas.children@[i];
        if s1.1 != u64::MAX {
            let id = LayerId(s1.1);
            let a1 = with_layer(s1, widget, target, child.style, target);
            let a2 = with_layer(s2, widget, target, child.style, target);
            let t1 = (a1.0, a1.1, a1.2, a1.3.push(id), a1.4);
            let t2 = (a2.0, a2.1, a2.2, a2.3.push(id), a2.4);
            lemma_child_decreases(canvas, i);
            lemma_canvas_agree(t1, t2, widget, Some(id), child.canvas);
            let (r1, e1) = spawned_canvas(t1, widget, Some(id), child.canvas);
            let (r2, e2) = spawned_canvas(t2, widget, Some(id), child.canvas);
            if e1 is None {
                lemma_children_agree(r1, r2, widget, target, canvas, i + 1);
            }
        }
    } else {
        lemma_tail_agree(s1, s2, widget, target, canvas);
    }
}

/// The tail step of [`lemma_canvas_agree`].
pub proof fn lemma_tail_agree<D, S>(
    s1: DrawState<D, S>,
    s2: DrawState<D, S>,
    widget: WidgetId,
    target: Option<LayerId>,
    canvas: LayerCanvas<D, S>,
)
    requires
        agree_but_events(s1, s2),
    ensures
        agree_but_events(spawned_tail(s1, widget, target, canvas).0, spawned_tail(s2, widget, target, canvas).0),
        spawned_tail(s1, widget, target, canvas).1 == spawned_tail(s2, widget, target, canvas).1,
    decreases canvas, 0int,
{
    match canvas.tail {
        Some(tail) => if s1.1 != u64::MAX {
            let id = LayerId(s1.1);
            let reported1 = match s1.4 {
                Some(previous) => Some(previous),
                None => target,
            };
            let a1 = with_layer(s1, widget, target, tail.style, reported1);
            let a2 = with_layer(s2, widget, target, tail.style, reported1);
            let c1 = match s1.4 {
                Some(previous) => a1.3.push(previous),
                None => a1.3,
            };
            let c2 = match s2.4 {
                Some(previous) => a2.3.push(previous),
                None => a2.3,
            };
            lemma_canvas_agree((a1.0, a1.1, a1.2, c1, Some(id)), (a2.0, a2.1, a2.2, c2, Some(id)), widget, Some(id), tail.canvas);
        },
        None => {},
    }
}

/// The layers, the next layer id, and the layers each widget owns.
pub type ManagerState<D, S> = (Map<u64, super::layers::LayerView<D, S>>, u64, Map<WidgetId, OwnedView>);

/// `m` without the layers in or below `roots`.
pub open spec fn pruned<D, S>(m: Map<u64, super::layers::LayerView<D, S>>, roots: Set<u64>) -> Map<
    u64,
    super::layers::LayerView<D, S>,
> {
    Map::new(|x: u64| m.dom().contains(x) && !descends(m, roots, x), |x: u64| m[x])
}

/// Following the element events `events` from `st`, given the elements `tree` holds and the
/// canvases `drawn` that the spawned elements draw, in order: a spawned element not held, or
/// whose parent owns no layers, fails with `MissingWidget`; otherwise it draws its canvas
/// into the layer its parent hands on (failing as drawing fails) and owns what it drew. A
/// destroyed element that owns no layers fails with `MissingWidget`; otherwise its commands
/// leave its head layer, the layers it opened go with everything under them, and it owns
/// nothing. Other events change nothing. Returns the state reached and the error, if any.
pub open spec fn updated_layers<D, S>(
    st: ManagerState<D, S>,
    tree: Set<u64>,
    events: Seq<ElementEvent>,
    drawn: Seq<(WidgetId, Option<LayerCanvas<D, S>>)>,
) -> (ManagerState<D, S>, Option<RenderError>)
    decreases events.len(),
{
    if events.len() == 0 {
        (st, None)
    } else {
        let rest = events.drop_first();
        match events[0] {
            ElementEvent::Spawned { parent_id, element_id } => if !tree.contains(element_id.0) {
                (st, Some(RenderError::MissingWidget { widget_id: element_id }))
            } else if parent_id is Some && !st.2.dom().contains(parent_id->Some_0) {
                (st, Some(RenderError::MissingWidget { widget_id: parent_id->Some_0 }))
            } else {
                let head = match parent_id {
                    Some(p) => next_layer(st.2[p].0, st.2[p].1, st.2[p].2),
                    None => None,
                };
                let canvas = if drawn.len() > 0 {
                    drawn[0].1
                } else {
                    None
                };
                let later = if drawn.len() > 0 {
                    drawn.drop_first()
                } else {
                    drawn
                };
                match canvas {
                    Some(c) => {
                        let (ds, error) = spawned_canvas(
                            (st.0, st.1, Seq::<RenderEvent>::empty(), Seq::<LayerId>::empty(), None),
                            element_id,
                            head,
                            c,
                        );
                        if error is Some {
                            ((ds.0, ds.1, st.2), error)
                        } else {
                            updated_layers((ds.0, ds.1, st.2.insert(element_id, (head, ds.3, ds.4))), tree, rest, later)
                        }
                    },
                    None => updated_layers(
                        (st.0, st.1, st.2.insert(element_id, (head, Seq::<LayerId>::empty(), None))),
                        tree,
                        rest,
                        later,
                    ),
                }
            },
            ElementEvent::Destroyed { element_id } => if !st.2.dom().contains(element_id) {
                (st, Some(RenderError::MissingWidget { widget_id: element_id }))
            } else {
                let own = st.2[element_id];
                let l1 = commands_dropped(st.0, own.0, element_id);
                updated_layers((pruned(l1, owned_roots(own)), st.1, st.2.remove(element_id)), tree, rest, drawn)
            },
            _ => updated_layers(st, tree, rest, drawn),
        }
    }
}

/// Draws `canvas` for `widget` into the layer tree: its head commands go to `target` (a new
/// root layer where there is no target and the head is not empty), each child layer it opens
/// is added under the target and drawn in turn, and its tail layer, added under the target,
/// becomes the widget's tail. Fails where `target` names a layer that is not held.
pub fn process_spawn<D, S>(
    layers: &mut LayerForest<D, S>,
    events: &mut Vec<RenderEvent>,
    widget: WidgetId,
    widget_layers: &mut WidgetLayers,
    target: Option<LayerId>,
    canvas: LayerCanvas<D, S>,
) -> (outcome: Result<(), RenderError>)
    requires
        old(layers).wf(),
    ensures
        final(layers).wf(),
        final(layers).next_id() >= old(layers).next_id(),
        old(layers)@.dom().subset_of(final(layers)@.dom()),
        final(events)@.len() >= old(events)@.len(),
        final(events)@.subrange(0, old(events)@.len() as int) == old(events)@,
        spawns_new_layers(final(events)@, old(events)@.len() as int, old(layers)@, final(layers)@),
        final(widget_layers).head == old(widget_layers).head,
        final(widget_layers).children@.len() >= old(widget_layers).children@.len(),
        final(widget_layers).children@.subrange(0, old(widget_layers).children@.len() as int) == old(
            widget_layers,
        ).children@,
        drew_target(old(layers)@, final(layers)@, target, widget, canvas.head@),
        (draw_state(*final(layers), final(events)@, *final(widget_layers)), error_of(outcome)) == spawned_canvas(
            draw_state(*old(layers), old(events)@, *old(widget_layers)),
            widget,
            target,
            canvas,
        ),
        match target {
            Some(t) => !old(layers)@.dom().contains(t.0) ==> outcome == Err::<(), RenderError>(
                RenderError::MissingLayer { layer_id: t },
            ) && final(layers)@ == old(layers)@ && final(events)@ == old(events)@,
            None => true,
        },
    decreases canvas,
{
    let ghost c0 = canvas;
    let ghost len0 = events@.len();
    let ghost l0 = layers@;
    let ghost st0 = draw_state(*layers, events@, *widget_layers);
    let mut eff = target;
    if eff.is_none() && canvas.head.len() > 0 {
        if !layers.has_room() {
            assert(events@.subrange(0, len0 as int) =~= events@);
            assert(drew_target(l0, layers@, target, widget, c0.head@));
            return Err(RenderError::Full);
        }
        proof {
            layers.lemma_ids_below_next();
        }
        eff = Some(layers.add(None, None, Vec::new()));
    }
    let LayerCanvas { head, children, tail } = canvas;
    match eff {
        Some(t) => {
            if !layers.contains(t) {
                assert(events@.subrange(0, len0 as int) =~= events@);
                return Err(RenderError::MissingLayer { layer_id: t });
            }
            layers.draw_into(t, widget, head);
        },
        None => {},
    }
    let ghost l1 = layers@;
    assert(events@.subrange(0, len0 as int) =~= events@);
    assert(drew_target(l0, l1, target, widget, c0.head@));
    assert(spawned_canvas(st0, widget, target, c0) == spawned_children(
        draw_state(*layers, events@, *widget_layers),
        widget,
        eff,
        c0,
        0,
    ));
    let mut children = children;
    let ghost all = children@;
    let ghost mut k: int = 0;
    while children.len() > 0
        invariant
            layers.wf(),
            0 <= k <= all.len(),
            children@ == all.skip(k),
            all == c0.children@,
            c0 == canvas,
            l0 == old(layers)@,
            len0 == old(events)@.len(),
            l0.dom().subset_of(l1.dom()),
            l1.dom().subset_of(layers@.dom()),
            layers.next_id() >= old(layers).next_id(),
            forall|id: u64| #[trigger] l1.dom().contains(id) ==> layers@[id] == l1[id],
            events@.len() >= len0,
            events@.subrange(0, len0 as int) == old(events)@,
            spawns_new_layers(events@, len0 as int, l1, layers@),
            widget_layers.head == old(widget_layers).head,
            widget_layers.children@.len() >= old(widget_layers).children@.len(),
            widget_layers.children@.subrange(0, old(widget_layers).children@.len() as int) == old(
                widget_layers,
            ).children@,
            match eff {
                Some(t) => l1.dom().contains(t.0),
                None => true,
            },
            drew_target(l0, l1, target, widget, c0.head@),
            target is Some ==> eff == target,
            match target {
                Some(t) => l0.dom().contains(t.0),
                None => true,
            },
            st0 == draw_state(*old(layers), old(events)@, *old(widget_layers)),
            spawned_canvas(st0, widget, target, c0) == spawned_children(
                draw_state(*layers, events@, *widget_layers),
                widget,
                eff,
                c0,
                k,
            ),
        decreases children@.len(),
    {
        let ghost cur = draw_state(*layers, events@, *widget_layers);
        let child = children.remove(0);
        proof {
            k = k + 1;
            assert(children@ =~= all.skip(k));
            assert(child == c0.children@[k - 1]);
        }
        if !layers.has_room() {
            proof {
                lemma_drew_target_kept(l0, l1, layers@, target, widget, c0.head@);
            }
            return Err(RenderError::Full);
        }
        let ghost before_add = layers@;
        let ghost ev_before = events@;
        proof {
            layers.lemma_ids_below_next();
        }
        let ghost wl_before = widget_layers.children@;
        let drawing = vec![widget];
        assert(drawing@ =~= seq![widget]);
        let child_id = layers.add(eff, Some(child.style), drawing);
        events.push(RenderEvent::Spawned { parent_id: eff, layer_id: child_id });
        widget_layers.children.push(child_id);
        let ghost mid = layers@;
        let ghost ev_mid = events@;
        proof {
            assert(events@.subrange(0, len0 as int) =~= ev_before.subrange(0, len0 as int));
            assert forall|i: int| len0 <= i < events@.len() implies match #[trigger] events@[i] {
                RenderEvent::Spawned { layer_id, .. } => !l1.dom().contains(layer_id.0) && layers@.dom().contains(
                    layer_id.0,
                ),
                _ => false,
            } by {
                if i < ev_before.len() {
                    assert(events@[i] == ev_before[i]);
                }
            }
            assert(c0.children@[k - 1] == child);
            lemma_child_decreases(c0, k - 1);
        }
        let ghost wl_mid = widget_layers.children@;
        proof {
            assert(wl_mid.subrange(0, old(widget_layers).children@.len() as int) =~= wl_before.subrange(
                0,
                old(widget_layers).children@.len() as int,
            ));
        }
        proof {
            let added = with_layer(cur, widget, eff, child.style, eff);
            assert(draw_state(*layers, events@, *widget_layers) == (added.0, added.1, added.2, added.3.push(child_id), added.4));
        }
        let ghost st1 = draw_state(*layers, events@, *widget_layers);
        let spawned = process_spawn(layers, events, widget, widget_layers, Some(child_id), child.canvas);
        proof {
            assert(widget_layers.children@.subrange(0, old(widget_layers).children@.len() as int) =~= wl_mid.subrange(
                0,
                old(widget_layers).children@.len() as int,
            ));
            lemma_spawns_extend(ev_mid, events@, len0 as int, l1, mid, layers@);
        }
        proof {
            assert forall|id: u64| #[trigger] l1.dom().contains(id) implies layers@[id] == l1[id] by {
                assert(mid.dom().contains(id));
                assert(id != child_id.0);
            }
        }
        if spawned.is_err() {
            proof {
                lemma_drew_target_kept(l0, l1, layers@, target, widget, c0.head@);
            }
            return spawned;
        }
    }
    proof {
        assert(k == c0.children@.len()) by {
            assert(all.skip(k).len() == 0);
        }
        assert(spawned_canvas(st0, widget, target, c0) == spawned_tail(
            draw_state(*layers, events@, *widget_layers),
            widget,
            eff,
            c0,
        ));
    }
    let ghost cur = draw_state(*layers, events@, *widget_layers);
    match tail {
        Some(tail) => {
            let tail = *tail;
            assert(c0.tail == Some(Box::new(tail)));
            if !layers.has_room() {
                proof {
                    lemma_drew_target_kept(l0, l1, layers@, target, widget, c0.head@);
                }
                return Err(RenderError::Full);
            }
            let ghost ev_before = events@;
            proof {
                layers.lemma_ids_below_next();
            }
            let ghost wl_before = widget_layers.children@;
            let drawing = vec![widget];
            assert(drawing@ =~= seq![widget]);
            let tail_id = layers.add(eff, Some(tail.style), drawing);
            let parent_id = match widget_layers.tail {
                Some(previous) => Some(previous),
                None => eff,
            };
            events.push(RenderEvent::Spawned { parent_id, layer_id: tail_id });
            let previous = widget_layers.tail;
            widget_layers.tail = Some(tail_id);
            match previous {
                Some(previous) => {
                    widget_layers.children.push(previous);
                },
                None => {},
            }
            let ghost mid = layers@;
            let ghost ev_mid = events@;
            proof {
                assert(events@.subrange(0, len0 as int) =~= ev_before.subrange(0, len0 as int));
                assert forall|i: int| len0 <= i < events@.len() implies match #[trigger] events@[i] {
                    RenderEvent::Spawned { layer_id, .. } => !l1.dom().contains(layer_id.0)
                        && layers@.dom().contains(layer_id.0),
                    _ => false,
                } by {
                    if i < ev_before.len() {
                        assert(events@[i] == ev_before[i]);
                    }
                }
            }
            let ghost wl_mid = widget_layers.children@;
            proof {
                assert(wl_mid.subrange(0, old(widget_layers).children@.len() as int) =~= wl_before.subrange(
                    0,
                    old(widget_layers).children@.len() as int,
                ));
            }
            proof {
                let reported = match cur.4 {
                    Some(previous) => Some(previous),
                    None => eff,
                };
                let added = with_layer(cur, widget, eff, tail.style, reported);
                let kids = match cur.4 {
                    Some(previous) => added.3.push(previous),
                    None => added.3,
                };
                assert(draw_state(*layers, events@, *widget_layers) == (added.0, added.1, added.2, kids, Some(tail_id)));
            }
            let spawned = process_spawn(layers, events, widget, widget_layers, Some(tail_id), tail.canvas);
            proof {
                assert(widget_layers.children@.subrange(0, old(widget_layers).children@.len() as int) =~= wl_mid.subrange(
                    0,
                    old(widget_layers).children@.len() as int,
                ));
                lemma_spawns_extend(ev_mid, events@, len0 as int, l1, mid, layers@);
            }
            proof {
                assert forall|id: u64| #[trigger] l1.dom().contains(id) implies layers@[id] == l1[id] by {
                    assert(mid.dom().contains(id));
                    assert(id != tail_id.0);
                }
            }
            if spawned.is_err() {
                proof {
                    lemma_drew_target_kept(l0, l1, layers@, target, widget, c0.head@);
                }
                return spawned;
            }
        },
        None => {},
    }
    proof {
        lemma_drew_target_kept(l0, l1, layers@, target, widget, c0.head@);
    }
    Ok(())
}

/// A child layer's canvas lies strictly inside the canvas that opens it.
pub proof fn lemma_child_decreases<D, S>(canvas: LayerCanvas<D, S>, k: int)
    requires
        0 <= k < canvas.children@.len(),
    ensures
        decreases_to!(canvas => canvas.children@[k].canvas),
{
    assert(decreases_to!(canvas.children => canvas.children[k]));
}

/// Drawing into the target stays done while the layers it left hold on unchanged.
proof fn lemma_drew_target_kept<D, S>(
    l0: Map<u64, super::layers::LayerView<D, S>>,
    l1: Map<u64, super::layers::LayerView<D, S>>,
    l2: Map<u64, super::layers::LayerView<D, S>>,
    target: Option<LayerId>,
    widget: WidgetId,
    head: Seq<D>,
)
    requires
        drew_target(l0, l1, target, widget, head),
        l1.dom().subset_of(l2.dom()),
        forall|id: u64| #[trigger] l1.dom().contains(id) ==> l2[id] == l1[id],
    ensures
        drew_target(l0, l2, target, widget, head),
{
    assert forall|id: u64| #[trigger] l0.dom().contains(id) && target != Some(LayerId(id)) implies l2.dom().contains(id)
        && l2[id] == l0[id] by {
        assert(l1.dom().contains(id));
    }
}

/// New-layer spawns counted from `start` against `before` stay new against `before` as the
/// forest and the events grow on.
proof fn lemma_spawns_extend<D, S>(
    a: Seq<RenderEvent>,
    b: Seq<RenderEvent>,
    start: int,
    before: Map<u64, super::layers::LayerView<D, S>>,
    mid: Map<u64, super::layers::LayerView<D, S>>,
    after: Map<u64, super::layers::LayerView<D, S>>,
)
    requires
        0 <= start <= a.len() <= b.len(),
        b.subrange(0, a.len() as int) == a,
        before.dom().subset_of(mid.dom()),
        mid.dom().subset_of(after.dom()),
        spawns_new_layers(a, start, before, mid),
        spawns_new_layers(b, a.len() as int, mid, after),
    ensures
        spawns_new_layers(b, start, before, after),
{
    assert forall|k: int| start <= k < b.len() implies match #[trigger] b[k] {
        RenderEvent::Spawned { layer_id, .. } => !before.dom().contains(layer_id.0) && after.dom().contains(
            layer_id.0,
        ),
        _ => false,
    } by {
        if k < a.len() {
            assert(b[k] == b.subrange(0, a.len() as int)[k]);
            assert(b[k] == a[k]);
        }
    }
}

} // verus!

verus! {

/// Draws a widget: the driver implements it over the widgets' render objects.
pub trait RenderHost<D, S> {
    /// The widgets drawn so far, in order, each with the canvas it returned. Every implementation is meant to define it over ghost
    /// state it keeps (a `Ghost` field) and so meet the contracts below. The empty default exists
    /// only so that implementations outside verified code compile; it meets none of those
    /// contracts, and what is proved of callers holds of such an implementation only if it does
    /// what the contracts say.
    closed spec fn rendered(&self) -> Seq<(WidgetId, Option<LayerCanvas<D, S>>)> {
        Seq::empty()
    }

    /// What the widget `widget` draws, if anything.
    fn render(&mut self, widget: WidgetId) -> (canvas: Option<LayerCanvas<D, S>>)
        ensures
            final(self).rendered() == old(self).rendered().push((widget, canvas)),
    ;
}

/// Whether an update from `m0` over `events`, drawing `drawn`, ends in `m1` with `error`:
/// following the events with the first `used` drawings either succeeds, using them all, or
/// fails, and the layer tree is then rebuilt from scratch from a spawn of each element of
/// `tree` with the drawings left.
pub open spec fn update_outcome<D, S>(
    m0: ManagerState<D, S>,
    tree: Map<u64, crate::manager::tree::NodeView>,
    events: Seq<ElementEvent>,
    drawn: Seq<(WidgetId, Option<LayerCanvas<D, S>>)>,
    used: int,
    m1: ManagerState<D, S>,
    error: Option<RenderError>,
) -> bool {
    let first = updated_layers(m0, tree.dom(), events, drawn.take(used));
    if first.1 is None {
        used == drawn.len() && m1 == first.0 && error is None
    } else {
        exists|spawns: Seq<ElementEvent>|
            lists_tree(tree, spawns) && (m1, error) == #[trigger] updated_layers(
                (Map::<u64, super::layers::LayerView<D, S>>::empty(), first.0.1, Map::<WidgetId, OwnedView>::empty()),
                tree.dom(),
                spawns,
                drawn.skip(used),
            )
    }
}

/// The layer tree drawn for a widget tree, with the layers each widget owns.
pub struct RenderManager<D, S> {
    layers: LayerForest<D, S>,
    owners: Vec<(WidgetId, WidgetLayers)>,
}

/// Whether `events` from `start` on each report a layer of `before` destroyed that `after`
/// no longer holds.
pub open spec fn destroys_old_layers<D, S>(
    events: Seq<RenderEvent>,
    start: int,
    before: Map<u64, super::layers::LayerView<D, S>>,
    after: Map<u64, super::layers::LayerView<D, S>>,
) -> bool {
    forall|k: int|
        start <= k < events.len() ==> match #[trigger] events[k] {
            RenderEvent::Destroyed { layer_id } => !after.dom().contains(layer_id.0),
            _ => false,
        }
}

impl<D, S> RenderManager<D, S> {
    /// The layers by id.
    pub closed spec fn layers(&self) -> Map<u64, super::layers::LayerView<D, S>> {
        self.layers@
    }

    /// The widgets that own layers.
    pub closed spec fn owners(&self) -> Set<WidgetId> {
        Set::new(|w: WidgetId| exists|i: int| 0 <= i < self.owners@.len() && #[trigger] self.owners@[i].0 == w)
    }

    /// The layers, the next layer id and what each widget owns.
    pub closed spec fn mstate(&self) -> ManagerState<D, S> {
        (self.layers@, self.layers.next_id(), self.owned())
    }

    /// The layer forest.
    pub closed spec fn layer_forest(&self) -> LayerForest<D, S> {
        self.layers
    }

    /// The layers each widget owns.
    pub closed spec fn owned(&self) -> Map<WidgetId, OwnedView> {
        Map::new(
            |w: WidgetId| self.owners().contains(w),
            |w: WidgetId| owned_view(self.owners@[choose|i: int| 0 <= i < self.owners@.len() && #[trigger] self.owners@[i].0 == w].1),
        )
    }

    proof fn lemma_owned_at(&self, i: int)
        requires
            self.wf(),
            0 <= i < self.owners@.len(),
        ensures
            self.owned().dom().contains(self.owners@[i].0),
            self.owned()[self.owners@[i].0] == owned_view(self.owners@[i].1),
    {
        let w = self.owners@[i].0;
        assert(self.owners().contains(w));
        let k = choose|k: int| 0 <= k < self.owners@.len() && #[trigger] self.owners@[k].0 == w;
        if k != i {
            if k < i {
                assert(self.owners@[k].0 != self.owners@[i].0);
            } else {
                assert(self.owners@[i].0 != self.owners@[k].0);
            }
        }
    }

    /// The layer forest is well formed and no widget is listed twice.
    pub closed spec fn wf(&self) -> bool {
        &&& self.layers.wf()
        &&& forall|i: int, j: int|
            0 <= i < j < self.owners@.len() ==> #[trigger] self.owners@[i].0 != #[trigger] self.owners@[j].0
    }

    /// A manager with no layers.
    pub fn new() -> (manager: RenderManager<D, S>)
        ensures
            manager.wf(),
            manager.layers() == Map::<u64, super::layers::LayerView<D, S>>::empty(),
            manager.owners() == Set::<WidgetId>::empty(),
    {
        let manager = RenderManager { layers: LayerForest::new(), owners: Vec::new() };
        assert(manager.owners() =~= Set::<WidgetId>::empty());
        manager
    }

    /// Removes the layers `widget` owns: its commands leave its head layer, and the layers it
    /// opened are destroyed with everything under them, each reported. Fails where `widget`
    /// owns no layers.
    pub fn process_destroy(&mut self, events: &mut Vec<RenderEvent>, widget: WidgetId) -> (outcome: Result<
        (),
        RenderError,
    >)
        requires
            old(self).wf(),
        ensures
            final(self).wf(),
            outcome is Err <==> !old(self).owners().contains(widget),
            outcome is Err ==> outcome == Err::<(), RenderError>(RenderError::MissingWidget { widget_id: widget })
                && final(self).layers() == old(self).layers() && final(self).owners() == old(self).owners()
                && final(events)@ == old(events)@ && final(self).owned() == old(self).owned()
                && final(self).layer_forest() == old(self).layer_forest(),
            final(self).layer_forest().next_id() == old(self).layer_forest().next_id(),
            outcome is Ok ==> final(self).owners() == old(self).owners().remove(widget),
            final(self).layers().dom().subset_of(old(self).layers().dom()),
            forall|id: u64| #[trigger] final(self).layers().dom().contains(id) ==> {
                let (a, b) = (final(self).layers()[id], old(self).layers()[id]);
                a.0 == b.0 && a.1 == b.1 && a.2 == b.2
            },
            final(events)@.len() >= old(events)@.len(),
            final(events)@.subrange(0, old(events)@.len() as int) == old(events)@,
            destroys_old_layers(final(events)@, old(events)@.len() as int, old(self).layers(), final(self).layers()),
            outcome is Ok ==> ({
                let own = old(self).owned()[widget];
                let l1 = commands_dropped(old(self).layers(), own.0, widget);
                let roots = owned_roots(own);
                &&& final(self).owned() == old(self).owned().remove(widget)
                &&& forall|x: u64| #[trigger] final(self).layers().dom().contains(x) <==> (l1.dom().contains(x)
                    && !descends(l1, roots, x))
                &&& forall|x: u64| #[trigger] final(self).layers().dom().contains(x) ==> final(self).layers()[x] == l1[x]
                &&& forall|x: u64| #[trigger] descends(l1, roots, x) ==> reported_destroyed(
                    final(events)@,
                    old(events)@.len() as int,
                    x,
                )
            }),
    {
        let ghost me = *self;
        let pos = match self.owner_position(widget) {
            Some(pos) => pos,
            None => {
                assert(events@.subrange(0, events@.len() as int) =~= events@);
                return Err(RenderError::MissingWidget { widget_id: widget });
            },
        };
        let ghost o0 = self.owners@;
        let (_, owned) = self.owners.remove(pos);
        proof {
            assert forall|i: int, j: int| 0 <= i < j < self.owners@.len() implies #[trigger] self.owners@[i].0
                != #[trigger] self.owners@[j].0 by {
                let i1 = if i < pos { i } else { i + 1 };
                let j1 = if j < pos { j } else { j + 1 };
                assert(self.owners@[i] == o0[i1] && self.owners@[j] == o0[j1]);
            }
            assert forall|w: WidgetId| self.owners().contains(w) <==> old(self).owners().remove(widget).contains(w) by {
                if self.owners().contains(w) {
                    let i = choose|i: int| 0 <= i < self.owners@.len() && #[trigger] self.owners@[i].0 == w;
                    let i1 = if i < pos { i } else { i + 1 };
                    assert(self.owners@[i] == o0[i1]);
                    assert(i1 != pos);
                }
                if old(self).owners().contains(w) && w != widget {
                    let i = choose|i: int| 0 <= i < o0.len() && #[trigger] o0[i].0 == w;
                    assert(i != pos);
                    let i1 = if i < pos { i } else { i - 1 };
                    assert(self.owners@[i1] == o0[i]);
                }
            }
            assert(self.owners() =~= old(self).owners().remove(widget));
        }
        match owned.head {
            Some(head) => {
                self.layers.remove_commands(head, widget);
            },
            None => {},
        }
        let ghost l1 = self.layers@;
        let ghost o1 = self.owners@;
        let ghost own = owned_view(owned);
        let ghost roots = owned_roots(own);
        proof {
            me.lemma_owned_at(pos as int);
            assert(own == me.owned()[widget]);
            assert(l1 == commands_dropped(me.layers(), own.0, widget));
        }
        let mut queue: Vec<LayerId> = owned.children;
        match owned.tail {
            Some(tail) => {
                queue.push(tail);
            },
            None => {},
        }
        let ghost len0 = events@.len();
        proof {
            assert(pending(queue@, 0) =~= roots) by {
                assert forall|z: u64| pending(queue@, 0).contains(z) <==> roots.contains(z) by {
                    if pending(queue@, 0).contains(z) {
                        let j = choose|j: int| 0 <= j < queue@.len() && #[trigger] queue@[j].0 == z;
                        if j < own.1.len() {
                            assert(own.1[j].0 == z);
                        }
                    }
                    if roots.contains(z) {
                        if exists|k: int| 0 <= k < own.1.len() && #[trigger] own.1[k].0 == z {
                            let k = choose|k: int| 0 <= k < own.1.len() && #[trigger] own.1[k].0 == z;
                            assert(queue@[k].0 == z);
                        } else {
                            assert(queue@[queue@.len() - 1].0 == z);
                        }
                    }
                }
            }
            assert forall|j: int| 0 <= j < queue@.len() && l1.dom().contains(#[trigger] queue@[j].0) implies descends(
                l1,
                roots,
                queue@[j].0,
            ) by {
                assert(pending(queue@, 0).contains(queue@[j].0));
                assert(under(l1, roots, queue@[j].0, 0));
            }
            assert forall|y: u64| #[trigger] self.layers@.dom().contains(y) && descends(l1, roots, y) implies exists|f: nat|
                under(self.layers@, pending(queue@, 0), y, f) by {
                let f = choose|f: nat| #[trigger] under(l1, roots, y, f);
                assert(under(self.layers@, pending(queue@, 0), y, f));
            }
        }
        let mut i: usize = 0;
        while i < queue.len()
            invariant
                self.layers.wf(),
                i <= queue@.len(),
                self.owners() == old(self).owners().remove(widget),
                forall|a: int, b: int|
                    0 <= a < b < self.owners@.len() ==> #[trigger] self.owners@[a].0 != #[trigger] self.owners@[b].0,
                l1.dom() == old(self).layers().dom(),
                forall|id: u64| #[trigger] l1.dom().contains(id) ==> {
                    let (a, b) = (l1[id], old(self).layers()[id]);
                    a.0 == b.0 && a.1 == b.1 && a.2 == b.2
                },
                self.layers@.dom().subset_of(l1.dom()),
                forall|id: u64| #[trigger] self.layers@.dom().contains(id) ==> self.layers@[id] == l1[id],
                len0 == old(events)@.len(),
                events@.len() >= len0,
                events@.subrange(0, len0 as int) == old(events)@,
                destroys_old_layers(events@, len0 as int, old(self).layers(), self.layers@),
                l1 == commands_dropped(old(self).layers(), own.0, widget),
                own == old(self).owned()[widget],
                self.owners@ == o1,
                self.layers.next_id() == old(self).layers.next_id(),
                roots == owned_roots(own),
                forall|j: int| 0 <= j < queue@.len() && l1.dom().contains(#[trigger] queue@[j].0) ==> descends(
                    l1,
                    roots,
                    queue@[j].0,
                ),
                forall|x: u64| l1.dom().contains(x) && !(#[trigger] self.layers@.dom().contains(x)) ==> descends(l1, roots, x)
                    && reported_destroyed(events@, len0 as int, x),
                forall|y: u64| #[trigger] self.layers@.dom().contains(y) && descends(l1, roots, y) ==> exists|f: nat|
                    under(self.layers@, pending(queue@, i as int), y, f),
            decreases self.layers.size(), queue@.len() - i,
        {
            let layer = queue[i];
            let ghost q0 = queue@;
            let ghost m0 = self.layers@;
            i = i + 1;
            let held = self.layers.contains(layer);
            if held {
                let kids = self.layers.children_of(layer);
                let mut k: usize = 0;
                while k < kids.len()
                    invariant
                        k <= kids@.len(),
                        i <= queue@.len(),
                        queue@ == q0 + kids@.take(k as int),
                    decreases kids@.len() - k,
                {
                    queue.push(kids[k]);
                    proof {
                        assert(kids@.take(k + 1 as int) =~= kids@.take(k as int).push(kids@[k as int]));
                    }
                    k = k + 1;
                }
                proof {
                    assert(kids@.take(k as int) =~= kids@);
                    assert forall|c: u64| #[trigger] m0.dom().contains(c) && m0[c].0 == Some(layer.0) && c != layer.0
                        implies pending(queue@, i as int).contains(c) by {
                        let kk = choose|kk: int| 0 <= kk < kids@.len() && #[trigger] kids@[kk].0 == c;
                        assert(queue@[q0.len() + kk].0 == c);
                    }
                    assert forall|j: int| 0 <= j < queue@.len() && l1.dom().contains(#[trigger] queue@[j].0) implies descends(
                        l1,
                        roots,
                        queue@[j].0,
                    ) by {
                        if j >= q0.len() {
                            let c = queue@[j].0;
                            assert(kids@[j - q0.len()].0 == c);
                            assert(l1.dom().contains(layer.0));
                            assert(descends(l1, roots, layer.0));
                            let f = choose|f: nat| #[trigger] under(l1, roots, layer.0, f);
                            lemma_under_child(l1, roots, c, f);
                        } else {
                            assert(queue@[j] == q0[j]);
                        }
                    }
                }
            }
            proof {
                assert forall|z: u64| pending(q0, i - 1).contains(z) && z != layer.0 implies #[trigger] pending(
                    queue@,
                    i as int,
                ).contains(z) by {
                    let j = choose|j: int| i - 1 <= j < q0.len() && #[trigger] q0[j].0 == z;
                    assert(j != i - 1);
                    assert(queue@[j] == q0[j]);
                }
            }
            let ghost ev = events@;
            let ghost before = self.layers@;
            events.push(RenderEvent::Destroyed { layer_id: layer });
            self.layers.remove(layer);
            proof {
                assert forall|y: u64| #[trigger] self.layers@.dom().contains(y) && descends(l1, roots, y) implies exists|f: nat|
                    under(self.layers@, pending(queue@, i as int), y, f) by {
                    let f = choose|f: nat| #[trigger] under(m0, pending(q0, i - 1), y, f);
                    if held {
                        lemma_under_step(m0, pending(q0, i - 1), pending(queue@, i as int), layer.0, y, f);
                    } else {
                        assert(m0.remove(layer.0) =~= m0);
                        lemma_under_keep(m0, pending(q0, i - 1), pending(queue@, i as int), layer.0, y, f);
                    }
                }
                assert forall|x: u64| l1.dom().contains(x) && !(#[trigger] self.layers@.dom().contains(x)) implies descends(
                    l1,
                    roots,
                    x,
                ) && reported_destroyed(events@, len0 as int, x) by {
                    if m0.dom().contains(x) {
                        assert(x == layer.0);
                        assert(events@[ev.len() as int] == (RenderEvent::Destroyed { layer_id: LayerId(x) }));
                        assert(q0[i - 1].0 == x);
                    } else {
                        let k = choose|k: int| len0 <= k < ev.len() && #[trigger] ev[k] == (RenderEvent::Destroyed {
                            layer_id: LayerId(x),
                        });
                        assert(events@[k] == ev[k]);
                    }
                }
                assert(events@.subrange(0, len0 as int) =~= ev.subrange(0, len0 as int));
                assert forall|k: int| len0 <= k < events@.len() implies match #[trigger] events@[k] {
                    RenderEvent::Destroyed { layer_id } => !self.layers@.dom().contains(layer_id.0),
                    _ => false,
                } by {
                    if k < ev.len() {
                        assert(events@[k] == ev[k]);
                    }
                }
            }
        }
        proof {
            assert(pending(queue@, i as int) =~= Set::<u64>::empty());
            assert forall|y: u64| #[trigger] self.layers@.dom().contains(y) implies !descends(l1, roots, y) by {
                if descends(l1, roots, y) {
                    let f = choose|f: nat| #[trigger] under(self.layers@, pending(queue@, i as int), y, f);
                    lemma_under_nothing(self.layers@, pending(queue@, i as int), y, f);
                }
            }
            assert forall|x: u64| #[trigger] descends(l1, roots, x) implies reported_destroyed(
                events@,
                len0 as int,
                x,
            ) by {
                let f = choose|f: nat| #[trigger] under(l1, roots, x, f);
                assert(l1.dom().contains(x));
                if self.layers@.dom().contains(x) {
                    assert(!descends(l1, roots, x));
                }
                assert(!self.layers@.dom().contains(x));
            }
            assert forall|w: WidgetId| #[trigger] self.owned().dom().contains(w) implies self.owned()[w]
                == me.owned().remove(widget)[w] by {
                let k = choose|k: int| 0 <= k < self.owners@.len() && #[trigger] self.owners@[k].0 == w;
                self.lemma_owned_at(k);
                let k1 = if k < pos { k } else { k + 1 };
                assert(self.owners@[k] == o0[k1]);
                me.lemma_owned_at(k1);
            }
            assert(self.owned() =~= me.owned().remove(widget));
        }
        Ok(())
    }

    /// Brings the layer tree up to date with the element events `events`, given the element
    /// tree `tree` they leave: a spawned element draws through `host` into the layer its
    /// parent hands on, a destroyed one loses its layers. Returns the layer events; fails on
    /// the first event that cannot be followed, as [`updated_layers`] says.
    pub fn try_update<H: RenderHost<D, S>>(
        &mut self,
        tree: &WidgetTree,
        events: &Vec<ElementEvent>,
        host: &mut H,
    ) -> (result: Result<Vec<RenderEvent>, RenderError>)
        requires
            old(self).wf(),
            tree.wf(),
        ensures
            final(self).wf(),
            final(host).rendered() == old(host).rendered() + final(host).rendered().skip(
                old(host).rendered().len() as int,
            ),
            (final(self).mstate(), result_error(result)) == updated_layers(
                old(self).mstate(),
                tree@.dom(),
                events@,
                final(host).rendered().skip(old(host).rendered().len() as int),
            ),
            match result {
                Ok(out) => forall|k: int|
                    0 <= k < out@.len() ==> (#[trigger] out@[k] is Spawned) || (out@[k] is Destroyed),
                Err(_) => true,
            },
    {
        let ghost m0 = self.mstate();
        let ghost r0 = host.rendered();
        let ghost dom = tree@.dom();
        let mut out: Vec<RenderEvent> = Vec::new();
        proof {
            assert forall|future: Seq<(WidgetId, Option<LayerCanvas<D, S>>)>| #[trigger] updated_layers(
                self.mstate(),
                dom,
                events@.skip(0),
                future,
            ) == updated_layers(m0, dom, events@, host.rendered().skip(r0.len() as int) + future) by {
                assert(events@.skip(0) =~= events@);
                assert(host.rendered().skip(r0.len() as int) + future =~= future);
            }
        }
        let mut i: usize = 0;
        while i < events.len()
            invariant
                self.wf(),
                tree.wf(),
                dom == tree@.dom(),
                i <= events@.len(),
                forall|k: int| 0 <= k < out@.len() ==> (#[trigger] out@[k] is Spawned) || (out@[k] is Destroyed),
                r0 == old(host).rendered(),
                m0 == old(self).mstate(),
                host.rendered().len() >= r0.len(),
                host.rendered().subrange(0, r0.len() as int) == r0,
                forall|future: Seq<(WidgetId, Option<LayerCanvas<D, S>>)>| #[trigger] updated_layers(
                    self.mstate(),
                    dom,
                    events@.skip(i as int),
                    future,
                ) == updated_layers(m0, dom, events@, host.rendered().skip(r0.len() as int) + future),
            decreases events@.len() - i,
        {
            let event = events[i];
            let ghost cur = self.mstate();
            let ghost log = host.rendered();
            let ghost rest = events@.skip(i + 1 as int);
            proof {
                assert(events@.skip(i as int).drop_first() =~= rest);
                assert(events@.skip(i as int)[0] == event);
                assert(self.owned().dom() =~= self.owners());
            }
            match event {
                ElementEvent::Spawned { parent_id, element_id } => {
                    if !tree.contains(element_id) {
                        proof {
                            let e = Seq::<(WidgetId, Option<LayerCanvas<D, S>>)>::empty();
                            assert(updated_layers(cur, dom, events@.skip(i as int), e) == updated_layers(
                                m0,
                                dom,
                                events@,
                                log.skip(r0.len() as int) + e,
                            ));
                            assert(log.skip(r0.len() as int) + e =~= log.skip(r0.len() as int));
                            assert(log =~= r0 + log.skip(r0.len() as int));
                        }
                        return Err(RenderError::MissingWidget { widget_id: element_id });
                    }
                    let mut owned = WidgetLayers::new();
                    match parent_id {
                        Some(parent) => {
                            match self.owner_position(parent) {
                                Some(at) => {
                                    proof {
                                        self.lemma_owned_at(at as int);
                                    }
                                    owned.head = self.owners[at].1.next();
                                },
                                None => {
                                    proof {
                                        let e = Seq::<(WidgetId, Option<LayerCanvas<D, S>>)>::empty();
                                        assert(updated_layers(cur, dom, events@.skip(i as int), e) == updated_layers(
                                            m0,
                                            dom,
                                            events@,
                                            log.skip(r0.len() as int) + e,
                                        ));
                                        assert(log.skip(r0.len() as int) + e =~= log.skip(r0.len() as int));
                                        assert(log =~= r0 + log.skip(r0.len() as int));
                                    }
                                    return Err(RenderError::MissingWidget { widget_id: parent });
                                },
                            }
                        },
                        None => {},
                    }
                    let head = owned.head;
                    assert(owned.children@ =~= Seq::<LayerId>::empty());
                    let ghost mut next_state = (cur.0, cur.1, cur.2.insert(element_id, (head, Seq::<LayerId>::empty(), None)));
                    let canvas = host.render(element_id);
                    let ghost entry = (element_id, canvas);
                    proof {
                        assert(host.rendered() == log.push(entry));
                        assert(host.rendered().subrange(0, r0.len() as int) =~= log.subrange(0, r0.len() as int));
                    }
                    match canvas {
                        Some(canvas) => {
                            let ghost c = canvas;
                            let ghost out0 = out@;
                            let ghost before = draw_state(self.layers, out@, owned);
                            let drawn = process_spawn(&mut self.layers, &mut out, element_id, &mut owned, head, canvas);
                            proof {
                                assert forall|k: int| 0 <= k < out@.len() implies (#[trigger] out@[k] is Spawned)
                                    || (out@[k] is Destroyed) by {
                                    if k < out0.len() {
                                        assert(out@[k] == out@.subrange(0, out0.len() as int)[k]);
                                    }
                                }
                                let spec_start = (cur.0, cur.1, Seq::<RenderEvent>::empty(), Seq::<LayerId>::empty(), None);
                                assert(agree_but_events(spec_start, before));
                                lemma_canvas_agree(spec_start, before, element_id, head, c);
                            }
                            match drawn {
                                Err(error) => {
                                    proof {
                                        let e = Seq::<(WidgetId, Option<LayerCanvas<D, S>>)>::empty();
                                        let f1 = seq![entry] + e;
                                        assert(updated_layers(cur, dom, events@.skip(i as int), f1) == updated_layers(
                                            m0,
                                            dom,
                                            events@,
                                            log.skip(r0.len() as int) + f1,
                                        ));
                                        assert(log.skip(r0.len() as int) + f1 =~= host.rendered().skip(r0.len() as int));
                                        assert(f1.drop_first() =~= e);
                                        assert(self.owned() == cur.2);
                                        assert(host.rendered() =~= r0 + host.rendered().skip(r0.len() as int));
                                    }
                                    return Err(error);
                                },
                                Ok(()) => {},
                            }
                            proof {
                                let spec_start = (cur.0, cur.1, Seq::<RenderEvent>::empty(), Seq::<LayerId>::empty(), None);
                                let ds = spawned_canvas(spec_start, element_id, head, c).0;
                                next_state = (ds.0, ds.1, cur.2.insert(element_id, (head, ds.3, ds.4)));
                                assert(self.layers@ == ds.0 && self.layers.next_id() == ds.1);
                                assert(owned.children@ == ds.3 && owned.tail == ds.4 && owned.head == head);
                            }
                        },
                        None => {},
                    }
                    let ghost mid = self.mstate();
                    self.set_owner(element_id, owned);
                    assert(self.mstate() == next_state);
                    proof {
                        assert forall|future: Seq<(WidgetId, Option<LayerCanvas<D, S>>)>| #[trigger] updated_layers(
                            self.mstate(),
                            dom,
                            events@.skip(i + 1 as int),
                            future,
                        ) == updated_layers(m0, dom, events@, host.rendered().skip(r0.len() as int) + future) by {
                            let f1 = seq![entry] + future;
                            assert(f1.drop_first() =~= future);
                            assert(f1[0] == entry);
                            assert(updated_layers(cur, dom, events@.skip(i as int), f1) == updated_layers(
                                m0,
                                dom,
                                events@,
                                log.skip(r0.len() as int) + f1,
                            ));
                            assert(log.skip(r0.len() as int) + f1 =~= host.rendered().skip(r0.len() as int) + future);
                        }
                    }
                },
                ElementEvent::Destroyed { element_id } => {
                    let ghost out0 = out@;
                    let destroyed = self.process_destroy(&mut out, element_id);
                    proof {
                        assert forall|k: int| 0 <= k < out@.len() implies (#[trigger] out@[k] is Spawned)
                            || (out@[k] is Destroyed) by {
                            if k < out0.len() {
                                assert(out@[k] == out@.subrange(0, out0.len() as int)[k]);
                            }
                        }
                    }
                    match destroyed {
                        Err(error) => {
                            proof {
                                let e = Seq::<(WidgetId, Option<LayerCanvas<D, S>>)>::empty();
                                assert(updated_layers(cur, dom, events@.skip(i as int), e) == updated_layers(
                                    m0,
                                    dom,
                                    events@,
                                    log.skip(r0.len() as int) + e,
                                ));
                                assert(log.skip(r0.len() as int) + e =~= log.skip(r0.len() as int));
                                assert(log =~= r0 + log.skip(r0.len() as int));
                            }
                            return Err(error);
                        },
                        Ok(()) => {},
                    }
                    proof {
                        let own = cur.2[element_id];
                        let l1 = commands_dropped(cur.0, own.0, element_id);
                        assert(self.layers@ =~= pruned(l1, owned_roots(own)));
                        assert forall|future: Seq<(WidgetId, Option<LayerCanvas<D, S>>)>| #[trigger] updated_layers(
                            self.mstate(),
                            dom,
                            events@.skip(i + 1 as int),
                            future,
                        ) == updated_layers(m0, dom, events@, host.rendered().skip(r0.len() as int) + future) by {
                            assert(updated_layers(cur, dom, events@.skip(i as int), future) == updated_layers(
                                m0,
                                dom,
                                events@,
                                log.skip(r0.len() as int) + future,
                            ));
                        }
                    }
                },
                _ => {
                    proof {
                        assert forall|future: Seq<(WidgetId, Option<LayerCanvas<D, S>>)>| #[trigger] updated_layers(
                            self.mstate(),
                            dom,
                            events@.skip(i + 1 as int),
                            future,
                        ) == updated_layers(m0, dom, events@, host.rendered().skip(r0.len() as int) + future) by {
                            assert(updated_layers(cur, dom, events@.skip(i as int), future) == updated_layers(
                                m0,
                                dom,
                                events@,
                                log.skip(r0.len() as int) + future,
                            ));
                        }
                    }
                },
            }
            i = i + 1;
        }
        proof {
            let e = Seq::<(WidgetId, Option<LayerCanvas<D, S>>)>::empty();
            assert(events@.skip(i as int) =~= Seq::<ElementEvent>::empty());
            assert(updated_layers(self.mstate(), dom, events@.skip(i as int), e) == updated_layers(
                m0,
                dom,
                events@,
                host.rendered().skip(r0.len() as int) + e,
            ));
            assert(host.rendered().skip(r0.len() as int) + e =~= host.rendered().skip(r0.len() as int));
            assert(host.rendered() =~= r0 + host.rendered().skip(r0.len() as int));
        }
        Ok(out)
    }

    /// Removes every layer and every widget's record of them.
    pub fn clear(&mut self)
        ensures
            final(self).wf(),
            final(self).mstate() == (
                Map::<u64, super::layers::LayerView<D, S>>::empty(),
                old(self).layer_forest().next_id(),
                Map::<WidgetId, OwnedView>::empty(),
            ),
    {
        self.layers.clear();
        self.owners = Vec::new();
        assert(self.owners() =~= Set::<WidgetId>::empty());
        assert(self.owned() =~= Map::<WidgetId, OwnedView>::empty());
    }

    /// Rebuilds the layer tree from scratch: clears it, then follows a spawn of every element
    /// of `tree` under its parent, in the order they were added.
    pub fn build_tree<H: RenderHost<D, S>>(&mut self, tree: &WidgetTree, host: &mut H) -> (result: Result<
        Vec<RenderEvent>,
        RenderError,
    >)
        requires
            tree.wf(),
        ensures
            final(self).wf(),
            final(host).rendered() == old(host).rendered() + final(host).rendered().skip(
                old(host).rendered().len() as int,
            ),
            exists|spawns: Seq<ElementEvent>|
                lists_tree(tree@, spawns) && (final(self).mstate(), result_error(result)) == #[trigger] updated_layers(
                    (
                        Map::<u64, super::layers::LayerView<D, S>>::empty(),
                        old(self).layer_forest().next_id(),
                        Map::<WidgetId, OwnedView>::empty(),
                    ),
                    tree@.dom(),
                    spawns,
                    final(host).rendered().skip(old(host).rendered().len() as int),
                ),
    {
        self.clear();
        let spawns = tree.spawn_events();
        let result = self.try_update(tree, &spawns, host);
        assert(lists_tree(tree@, spawns@));
        result
    }

    /// Brings the layer tree up to date with `events` as [`try_update`](Self::try_update)
    /// does; where that fails, rebuilds the layer tree from scratch from `tree`.
    pub fn update<H: RenderHost<D, S>>(
        &mut self,
        tree: &WidgetTree,
        events: &Vec<ElementEvent>,
        host: &mut H,
    ) -> (result: Result<Vec<RenderEvent>, RenderError>)
        requires
            old(self).wf(),
            tree.wf(),
        ensures
            final(self).wf(),
            final(host).rendered() == old(host).rendered() + final(host).rendered().skip(
                old(host).rendered().len() as int,
            ),
            exists|used: int|
                0 <= used <= final(host).rendered().len() - old(host).rendered().len() && #[trigger] update_outcome(
                    old(self).mstate(),
                    tree@,
                    events@,
                    final(host).rendered().skip(old(host).rendered().len() as int),
                    used,
                    final(self).mstate(),
                    result_error(result),
                ),
    {
        let ghost r0 = host.rendered();
        let attempt = self.try_update(tree, events, host);
        let ghost r1 = host.rendered();
        match attempt {
            Ok(out) => {
                proof {
                    let drawn = r1.skip(r0.len() as int);
                    assert(drawn.take(drawn.len() as int) =~= drawn);
                    assert(update_outcome(
                        old(self).mstate(),
                        tree@,
                        events@,
                        drawn,
                        drawn.len() as int,
                        self.mstate(),
                        None,
                    ));
                }
                Ok(out)
            },
            Err(_) => {
                let ghost mid = self.layer_forest().next_id();
                let rebuilt = self.build_tree(tree, host);
                proof {
                    let used = r1.len() - r0.len();
                    let drawn = host.rendered().skip(r0.len() as int);
                    assert(drawn.take(used) =~= r1.skip(r0.len() as int)) by {
                        assert(host.rendered().subrange(0, r1.len() as int) == r1) by {
                            assert(host.rendered() == r1 + host.rendered().skip(r1.len() as int));
                        }
                    }
                    assert(drawn.skip(used) =~= host.rendered().skip(r1.len() as int));
                    assert(host.rendered() =~= r0 + drawn);
                    assert(update_outcome(
                        old(self).mstate(),
                        tree@,
                        events@,
                        drawn,
                        used,
                        self.mstate(),
                        result_error(rebuilt),
                    ));
                }
                rebuilt
            },
        }
    }

    fn set_owner(&mut self, widget: WidgetId, owned: WidgetLayers)
        requires
            old(self).wf(),
        ensures
            final(self).wf(),
            final(self).layers() == old(self).layers(),
            final(self).layer_forest() == old(self).layer_forest(),
            final(self).owners() == old(self).owners().insert(widget),
            final(self).owned() == old(self).owned().insert(widget, owned_view(owned)),
    {
        match self.owner_position(widget) {
            Some(at) => {
                let ghost o0 = self.owners@;
                self.owners.set(at, (widget, owned));
                proof {
                    assert forall|i: int, j: int| 0 <= i < j < self.owners@.len() implies #[trigger] self.owners@[i].0
                        != #[trigger] self.owners@[j].0 by {
                        assert(self.owners@[i].0 == o0[i].0 && self.owners@[j].0 == o0[j].0);
                    }
                    assert forall|w: WidgetId| self.owners().contains(w) <==> old(self).owners().insert(widget).contains(w) by {
                        if self.owners().contains(w) {
                            let i = choose|i: int| 0 <= i < self.owners@.len() && #[trigger] self.owners@[i].0 == w;
                            assert(o0[i].0 == w);
                        }
                        if old(self).owners().contains(w) {
                            let i = choose|i: int| 0 <= i < o0.len() && #[trigger] o0[i].0 == w;
                            assert(self.owners@[i].0 == w);
                        }
                    }
                    assert(self.owners() =~= old(self).owners().insert(widget));
                    let me = *old(self);
                    assert forall|w: WidgetId| #[trigger] self.owned().dom().contains(w) implies self.owned()[w]
                        == me.owned().insert(widget, owned_view(owned))[w] by {
                        let k = choose|k: int| 0 <= k < self.owners@.len() && #[trigger] self.owners@[k].0 == w;
                        self.lemma_owned_at(k);
                        if k != at {
                            assert(self.owners@[k] == o0[k]);
                            me.lemma_owned_at(k);
                        }
                    }
                    assert(self.owned() =~= me.owned().insert(widget, owned_view(owned)));
                }
            },
            None => {
                let ghost o0 = self.owners@;
                self.owners.push((widget, owned));
                proof {
                    assert forall|i: int, j: int| 0 <= i < j < self.owners@.len() implies #[trigger] self.owners@[i].0
                        != #[trigger] self.owners@[j].0 by {
                        if j == o0.len() {
                            assert(self.owners@[i] == o0[i]);
                            assert(old(self).owners().contains(o0[i].0));
                        } else {
                            assert(self.owners@[i] == o0[i] && self.owners@[j] == o0[j]);
                        }
                    }
                    assert forall|w: WidgetId| self.owners().contains(w) <==> old(self).owners().insert(widget).contains(w) by {
                        if self.owners().contains(w) {
                            let i = choose|i: int| 0 <= i < self.owners@.len() && #[trigger] self.owners@[i].0 == w;
                            if i < o0.len() {
                                assert(o0[i].0 == w);
                            }
                        }
                        if old(self).owners().contains(w) {
                            let i = choose|i: int| 0 <= i < o0.len() && #[trigger] o0[i].0 == w;
                            assert(self.owners@[i].0 == w);
                        }
                        if w == widget {
                            assert(self.owners@[o0.len() as int].0 == w);
                        }
                    }
                    assert(self.owners() =~= old(self).owners().insert(widget));
                    let me = *old(self);
                    assert forall|w: WidgetId| #[trigger] self.owned().dom().contains(w) implies self.owned()[w]
                        == me.owned().insert(widget, owned_view(owned))[w] by {
                        let k = choose|k: int| 0 <= k < self.owners@.len() && #[trigger] self.owners@[k].0 == w;
                        self.lemma_owned_at(k);
                        if k < o0.len() {
                            assert(self.owners@[k] == o0[k]);
                            me.lemma_owned_at(k);
                        }
                    }
                    assert(self.owned() =~= me.owned().insert(widget, owned_view(owned)));
                }
            },
        }
    }

    /// The layer forest.
    pub fn get_layers(&self) -> (layers: &LayerForest<D, S>)
        requires
            self.wf(),
        ensures
            layers.wf(),
            layers@ == self.layers(),
    {
        &self.layers
    }

    /// Whether `widget` owns layers.
    pub fn owns_layers(&self, widget: WidgetId) -> (owns: bool)
        ensures
            owns == self.owners().contains(widget),
    {
        self.owner_position(widget).is_some()
    }

    fn owner_position(&self, widget: WidgetId) -> (found: Option<usize>)
        ensures
            match found {
                Some(i) => i < self.owners@.len() && self.owners@[i as int].0 == widget,
                None => !self.owners().contains(widget),
            },
    {
        let mut i: usize = 0;
        while i < self.owners.len()
            invariant
                i <= self.owners@.len(),
                forall|j: int| 0 <= j < i ==> #[trigger] self.owners@[j].0 != widget,
            decreases self.owners@.len() - i,
        {
            if self.owners[i].0.0 == widget.0 {
                return Some(i);
            }
            i = i + 1;
        }
        None
    }
}

} // verus!
