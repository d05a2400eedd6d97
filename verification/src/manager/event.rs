use vstd::prelude::*;

use std::any::TypeId;

use crate::manager::widget::WidgetId;

verus! {

/// Used to indicate a change to widgets in the tree.
#[derive(Debug, Clone, Copy)]
#[non_exhaustive]
pub enum WidgetEvent {
    /// A widget has been spawned.
    Spawned { type_id: TypeId, widget_id: WidgetId },
    /// A widget has been rebuilt.
    Rebuilt { type_id: TypeId, widget_id: WidgetId },
    /// A widget has changed in the layout.
    Layout { type_id: TypeId, widget_id: WidgetId },
    /// A widget has been destroyed.
    Destroyed { type_id: TypeId, widget_id: WidgetId },
}

/// The widget an event is about.
pub open spec fn event_widget(event: WidgetEvent) -> WidgetId {
    match event {
        WidgetEvent::Spawned { widget_id, .. } => widget_id,
        WidgetEvent::Rebuilt { widget_id, .. } => widget_id,
        WidgetEvent::Layout { widget_id, .. } => widget_id,
        WidgetEvent::Destroyed { widget_id, .. } => widget_id,
    }
}

impl WidgetEvent {
    /// The widget this event is about.
    pub fn widget_id(&self) -> (id: &WidgetId)
        ensures
            *id == event_widget(*self),
    {
        match self {
            WidgetEvent::Spawned { widget_id, .. }
            | WidgetEvent::Rebuilt { widget_id, .. }
            | WidgetEvent::Destroyed { widget_id, .. }
            | WidgetEvent::Layout { widget_id, .. } => widget_id,
        }
    }
}

/// Whether `event` spawns the widget `widget`.
pub open spec fn spawns(event: WidgetEvent, widget: WidgetId) -> bool {
    event is Spawned && event_widget(event) == widget
}

/// Whether `event` destroys the widget `widget`.
pub open spec fn destroys(event: WidgetEvent, widget: WidgetId) -> bool {
    event is Destroyed && event_widget(event) == widget
}

/// Whether `widget` is spawned and later destroyed within `events`, so it never existed as far
/// as a consumer of the whole batch is concerned.
pub open spec fn transient(events: Seq<WidgetEvent>, widget: WidgetId) -> bool {
    exists|i: int, j: int|
        0 <= i < j < events.len() && #[trigger] spawns(events[i], widget) && #[trigger] destroys(
            events[j],
            widget,
        )
}

/// Whether an event survives sanitizing `events`: its widget is not transient in them.
pub open spec fn kept_by(events: Seq<WidgetEvent>) -> spec_fn(WidgetEvent) -> bool {
    |e: WidgetEvent| !transient(events, event_widget(e))
}

/// `events` with every event of a transient widget left out, in order.
pub open spec fn sanitized(events: Seq<WidgetEvent>) -> Seq<WidgetEvent> {
    events.filter(kept_by(events))
}

/// Two elements a filter keeps stand in the same order in the sequence filtered.
pub(crate) proof fn lemma_filter_keeps_order<A>(s: Seq<A>, p: spec_fn(A) -> bool, k1: int, k2: int)
    requires
        0 <= k1 < k2 < s.filter(p).len(),
    ensures
        exists|i1: int, i2: int|
            0 <= i1 < i2 < s.len() && s[i1] == s.filter(p)[k1] && s[i2] == s.filter(p)[k2],
    decreases s.len(),
{
    reveal(Seq::filter);
    let f = s.filter(p);
    let rest = s.drop_last();
    let fr = rest.filter(p);
    if p(s.last()) && k2 == f.len() - 1 {
        assert(f[k1] == fr[k1]);
        assert(fr.contains(fr[k1]));
        rest.lemma_filter_contains_rev(p, fr[k1]);
        let i1 = choose|i1: int| 0 <= i1 < rest.len() && rest[i1] == fr[k1];
        assert(s[i1] == f[k1]);
        assert(s[s.len() - 1] == f[k2]);
    } else {
        assert(f[k1] == fr[k1] && f[k2] == fr[k2]);
        lemma_filter_keeps_order(rest, p, k1, k2);
        let (i1, i2) = choose|i1: int, i2: int|
            0 <= i1 < i2 < rest.len() && rest[i1] == fr[k1] && rest[i2] == fr[k2];
        assert(s[i1] == f[k1] && s[i2] == f[k2]);
    }
}

/// A filter whose predicate holds of every element keeps the whole sequence.
proof fn lemma_filter_keeps_all<A>(s: Seq<A>, p: spec_fn(A) -> bool)
    requires
        forall|i: int| 0 <= i < s.len() ==> p(#[trigger] s[i]),
    ensures
        s.filter(p) == s,
    decreases s.len(),
{
    reveal(Seq::filter);
    if s.len() > 0 {
        let rest = s.drop_last();
        assert forall|i: int| 0 <= i < rest.len() implies p(#[trigger] rest[i]) by {
            assert(rest[i] == s[i]);
        }
        lemma_filter_keeps_all(rest, p);
        assert(p(s[s.len() - 1]));
        assert(rest.push(s.last()) =~= s);
    }
}

/// No event of a widget spawned and destroyed within the batch survives sanitizing.
pub proof fn lemma_sanitized_keeps_no_transient_widget(events: Seq<WidgetEvent>)
    ensures
        forall|k: int|
            0 <= k < sanitized(events).len() ==> !transient(
                events,
                event_widget(#[trigger] sanitized(events)[k]),
            ),
{
    events.filter_lemma(kept_by(events));
}

/// Sanitizing events that are already sanitized changes nothing.
pub proof fn lemma_sanitize_is_idempotent(events: Seq<WidgetEvent>)
    ensures
        sanitized(sanitized(events)) == sanitized(events),
{
    let f = sanitized(events);
    let p = kept_by(events);
    events.filter_lemma(p);
    assert forall|k: int| 0 <= k < f.len() implies #[trigger] kept_by(f)(f[k]) by {
        let w = event_widget(f[k]);
        if transient(f, w) {
            let (a, b) = choose|a: int, b: int|
                0 <= a < b < f.len() && #[trigger] spawns(f[a], w) && #[trigger] destroys(f[b], w);
            lemma_filter_keeps_order(events, p, a, b);
            let (i1, i2) = choose|i1: int, i2: int|
                0 <= i1 < i2 < events.len() && events[i1] == f[a] && events[i2] == f[b];
            assert(spawns(events[i1], w) && destroys(events[i2], w));
            assert(transient(events, w));
            assert(p(f[k]));
        }
    }
    lemma_filter_keeps_all(f, kept_by(f));
}

fn same_widget(a: &WidgetId, b: &WidgetId) -> (r: bool)
    ensures
        r == (*a == *b),
{
    a.0 == b.0
}

/// Whether some event after position `from` destroys `widget`.
fn destroyed_after(events: &Vec<WidgetEvent>, from: usize, widget: &WidgetId) -> (found: bool)
    requires
        from < events.len(),
    ensures
        found == exists|j: int| from < j < events@.len() && #[trigger] destroys(events@[j], *widget),
{
    let mut j = from + 1;
    while j < events.len()
        invariant
            from < j <= events@.len(),
            forall|k: int| from < k < j ==> !#[trigger] destroys(events@[k], *widget),
        decreases events.len() - j,
    {
        if let WidgetEvent::Destroyed { widget_id, .. } = &events[j] {
            if same_widget(widget_id, widget) {
                proof {
                    assert(destroys(events@[j as int], *widget));
                }
                return true;
            }
        }
        j = j + 1;
    }
    false
}

/// Sanitizes widget events, removing every event of a widget that was spawned and subsequently
/// destroyed within them: a consumer of the batch never sees such a widget.
pub fn sanitize_events(events: &mut Vec<WidgetEvent>)
    ensures
        final(events)@ == sanitized(old(events)@),
{
    let ghost s0 = events@;
    // Collect the widgets spawned and later destroyed.
    let mut transient_ids: Vec<WidgetId> = Vec::new();
    let mut i: usize = 0;
    while i < events.len()
        invariant
            events@ == s0,
            i <= s0.len(),
            forall|w: WidgetId|
                transient_ids@.contains(w) <==> exists|a: int, b: int|
                    0 <= a < i && a < b < s0.len() && #[trigger] spawns(s0[a], w) && #[trigger] destroys(
                        s0[b],
                        w,
                    ),
        decreases s0.len() - i,
    {
        let ghost prev = transient_ids@;
        if let WidgetEvent::Spawned { widget_id, .. } = &events[i] {
            let id = *widget_id;
            let later = destroyed_after(events, i, &id);
            if later {
                transient_ids.push(id);
            }
            proof {
                assert(spawns(s0[i as int], id));
                assert forall|w: WidgetId|
                    transient_ids@.contains(w) <==> exists|a: int, b: int|
                        0 <= a < i + 1 && a < b < s0.len() && #[trigger] spawns(s0[a], w)
                            && #[trigger] destroys(s0[b], w) by {
                    if transient_ids@.contains(w) {
                        if later && w == id {
                            let j = choose|j: int| i < j < s0.len() && #[trigger] destroys(s0[j], id);
                            assert(spawns(s0[i as int], w) && destroys(s0[j], w));
                        } else {
                            assert(prev.contains(w));
                        }
                    }
                    if exists|a: int, b: int|
                        0 <= a < i + 1 && a < b < s0.len() && #[trigger] spawns(s0[a], w)
                            && #[trigger] destroys(s0[b], w) {
                        let (a, b) = choose|a: int, b: int|
                            0 <= a < i + 1 && a < b < s0.len() && #[trigger] spawns(s0[a], w)
                                && #[trigger] destroys(s0[b], w);
                        if a < i {
                            assert(prev.contains(w));
                            if later {
                                assert(transient_ids@ == prev.push(id));
                                let m = choose|m: int| 0 <= m < prev.len() && prev[m] == w;
                                assert(transient_ids@[m] == w);
                            }
                        } else {
                            assert(w == id);
                            assert(destroys(s0[b], id));
                            assert(later);
                            assert(transient_ids@[transient_ids@.len() - 1] == w);
                        }
                    }
                }
            }
        } else {
            proof {
                assert forall|w: WidgetId|
                    transient_ids@.contains(w) <==> exists|a: int, b: int|
                        0 <= a < i + 1 && a < b < s0.len() && #[trigger] spawns(s0[a], w)
                            && #[trigger] destroys(s0[b], w) by {
                    if exists|a: int, b: int|
                        0 <= a < i + 1 && a < b < s0.len() && #[trigger] spawns(s0[a], w)
                            && #[trigger] destroys(s0[b], w) {
                        let (a, b) = choose|a: int, b: int|
                            0 <= a < i + 1 && a < b < s0.len() && #[trigger] spawns(s0[a], w)
                                && #[trigger] destroys(s0[b], w);
                        assert(a != i);
                    }
                }
            }
        }
        i = i + 1;
    }
    let mut kept: Vec<WidgetEvent> = Vec::new();
    let mut k: usize = 0;
    while k < events.len()
        invariant
            events@ == s0,
            k <= s0.len(),
            forall|w: WidgetId| transient_ids@.contains(w) <==> transient(s0, w),
            kept@ == s0.subrange(0, k as int).filter(kept_by(s0)),
        decreases s0.len() - k,
    {
        let event = events[k];
        let widget = *event.widget_id();
        let mut drop = false;
        let mut t: usize = 0;
        while t < transient_ids.len()
            invariant
                t <= transient_ids@.len(),
                drop == transient_ids@.subrange(0, t as int).contains(widget),
            decreases transient_ids@.len() - t,
        {
            let ghost before = transient_ids@.subrange(0, t as int);
            if same_widget(&transient_ids[t], &widget) {
                drop = true;
            }
            proof {
                let after = transient_ids@.subrange(0, t + 1 as int);
                assert(after =~= before.push(transient_ids@[t as int]));
                if after.contains(widget) {
                    let m = choose|m: int| 0 <= m < after.len() && after[m] == widget;
                    if m < before.len() {
                        assert(before[m] == widget);
                    }
                }
                if before.contains(widget) {
                    let m = choose|m: int| 0 <= m < before.len() && before[m] == widget;
                    assert(after[m] == widget);
                }
                if transient_ids@[t as int] == widget {
                    assert(after[t as int] == widget);
                }
            }
            t = t + 1;
        }
        proof {
            assert(transient_ids@.subrange(0, t as int) =~= transient_ids@);
            assert(s0.subrange(0, k + 1 as int) =~= s0.subrange(0, k as int).push(event));
            s0.subrange(0, k as int).lemma_filter_push(event, kept_by(s0));
        }
        if !drop {
            kept.push(event);
        }
        k = k + 1;
    }
    proof {
        assert(s0.subrange(0, k as int) =~= s0);
    }
    *events = kept;
}

} // verus!
