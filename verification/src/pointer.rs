use vstd::prelude::*;

use std::collections::HashMap;

verus! {

broadcast use vstd::std_specs::hash::group_hash_axioms;

/// Identifies one pointer (a finger, mouse, or stylus) across the events of a single interaction.
#[derive(Debug, Clone, Copy, PartialEq, Eq, Hash)]
pub struct PointerId(pub u64);

/// What a pointer event reports.
#[derive(Debug, Clone, Copy, PartialEq, Eq, Hash)]
pub enum PointerEventKind {
    /// The pointer made contact.
    Down,
    /// The pointer moved while in contact.
    Move,
    /// The pointer broke contact.
    Up,
    /// The interaction was cancelled without a clean release.
    Cancel,
}

/// Where an event goes: the hit-test path it is delivered along, if any.
pub enum PointerRoute<'a, R> {
    /// The path stored for the held pointer.
    Held(&'a R),
    /// A path hit-tested for this event alone, as for a hover.
    Fresh(R),
    /// The path of the pointer this event released, which the dispatcher no longer holds.
    Released(R),
    /// No path: the event reaches no handler.
    Nowhere,
}

/// Routes pointer events to the handlers under them.
///
/// While a pointer is held, the path found at contact stays fixed, so a press-and-drag keeps
/// reaching the handlers it started on even as it moves off them. An unheld move is a hover,
/// routed to whatever is under the cursor at that moment. `R` is a hit-test result: the path of
/// handlers found under a position.
pub struct PointerDispatcher<R> {
    active: HashMap<u64, R>,
}

impl<R> Default for PointerDispatcher<R> {
    /// A dispatcher with no pointer held.
    fn default() -> (dispatcher: PointerDispatcher<R>)
        ensures
            dispatcher.held() == Map::<u64, R>::empty(),
    {
        PointerDispatcher::new()
    }
}

impl<R> PointerDispatcher<R> {
    /// The stored path of each held pointer, by pointer id.
    pub closed spec fn held(&self) -> Map<u64, R> {
        self.active@
    }

    /// A dispatcher with no pointer held.
    pub fn new() -> (dispatcher: PointerDispatcher<R>)
        ensures
            dispatcher.held() == Map::<u64, R>::empty(),
    {
        PointerDispatcher { active: HashMap::new() }
    }

    /// Routes an event of `pointer` of the given `kind`.
    ///
    /// A `Down` hit-tests through `hit_test` and stores the path. A `Move` while that pointer is
    /// held reuses the stored path, so the gesture stays with the handlers it started on; a
    /// `Move` with nothing held is a hover, hit-tested fresh. An `Up` or `Cancel` hands back the
    /// stored path for a last delivery and discards it.
    pub fn handle<F: FnOnce() -> R>(
        &mut self,
        pointer: PointerId,
        kind: PointerEventKind,
        hit_test: F,
    ) -> (route: PointerRoute<'_, R>)
        requires
            hit_test.requires(()),
        ensures
            match kind {
                PointerEventKind::Down => {
                    &&& final(self).held().contains_key(pointer.0)
                    &&& hit_test.ensures((), final(self).held()[pointer.0])
                    &&& final(self).held() == old(self).held().insert(
                        pointer.0,
                        final(self).held()[pointer.0],
                    )
                    &&& route matches PointerRoute::Held(path)
                        && *path == final(self).held()[pointer.0]
                },
                PointerEventKind::Move => {
                    &&& final(self).held() == old(self).held()
                    &&& if old(self).held().contains_key(pointer.0) {
                        route matches PointerRoute::Held(path) && *path == old(self).held()[pointer.0]
                    } else {
                        route matches PointerRoute::Fresh(path) && hit_test.ensures((), path)
                    }
                },
                PointerEventKind::Up | PointerEventKind::Cancel => {
                    &&& final(self).held() == old(self).held().remove(pointer.0)
                    &&& if old(self).held().contains_key(pointer.0) {
                        route == PointerRoute::<'_, R>::Released(old(self).held()[pointer.0])
                    } else {
                        route is Nowhere
                    }
                },
            },
    {
        match kind {
            PointerEventKind::Down => {
                let path = hit_test();
                self.active.insert(pointer.0, path);
                match self.active.get(&pointer.0) {
                    Some(path) => PointerRoute::Held(path),
                    None => PointerRoute::Nowhere,
                }
            },
            PointerEventKind::Move => {
                if self.active.contains_key(&pointer.0) {
                    match self.active.get(&pointer.0) {
                        Some(path) => PointerRoute::Held(path),
                        None => PointerRoute::Nowhere,
                    }
                } else {
                    PointerRoute::Fresh(hit_test())
                }
            },
            PointerEventKind::Up | PointerEventKind::Cancel => {
                match self.active.remove(&pointer.0) {
                    Some(path) => PointerRoute::Released(path),
                    None => PointerRoute::Nowhere,
                }
            },
        }
    }
}

} // verus!
