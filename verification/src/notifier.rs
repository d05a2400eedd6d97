use vstd::prelude::*;

verus! {

/// Something that is told about each value a notifier announces.
pub trait Listener<T> {
    /// The values this listener has been told about so far, in order. Every implementation is meant
    /// to define it over ghost state it keeps (a `Ghost` field) and so meet the contracts below.
    /// The empty default exists only so that implementations outside verified code compile; it
    /// meets none of those contracts, and what is proved of callers holds of such an implementation
    /// only if it does what the contracts say.
    closed spec fn heard(&self) -> Seq<T> {
        Seq::empty()
    }

    /// Called with each announced value.
    fn on_notified(&mut self, value: &T)
        ensures
            final(self).heard() == old(self).heard().push(*value),
    ;
}

} // verus!

verus! {

/// Identifies a listener added to a notifier, for removing it again.
pub struct ListenerHandle {
    listener_id: usize,
}

impl ListenerHandle {
    /// The id the notifier gave the listener.
    pub closed spec fn id(&self) -> usize {
        self.listener_id
    }
}

/// The id that follows `last`, wrapping past `usize::MAX` to zero.
pub open spec fn next_listener_id(last: usize) -> usize {
    if last == usize::MAX {
        0
    } else {
        (last + 1) as usize
    }
}

/// A boxed listener tells the listener inside it.
impl<T> Listener<T> for Box<dyn Listener<T>> {
    closed spec fn heard(&self) -> Seq<T> {
        (**self).heard()
    }

    fn on_notified(&mut self, value: &T) {
        (**self).on_notified(value)
    }
}

/// Announces values to the listeners added to it, each of type `L` (a boxed listener where
/// they differ).
pub struct Notifier<T, L: Listener<T>> {
    last_listener_id: usize,
    ids: Vec<usize>,
    listeners: Vec<L>,
    value: std::marker::PhantomData<T>,
}

impl<T, L: Listener<T>> Default for Notifier<T, L> {
    /// A notifier with no listeners.
    fn default() -> (notifier: Notifier<T, L>)
        ensures
            notifier.wf(),
            notifier.listener_ids() == Seq::<usize>::empty(),
            notifier.last_id() == 0,
    {
        Notifier::new()
    }
}

impl<T, L: Listener<T>> Notifier<T, L> {
    /// The ids of the listeners, in the order they are told.
    pub closed spec fn listener_ids(&self) -> Seq<usize> {
        self.ids@
    }

    /// Whether `listener` is held under `id`.
    pub closed spec fn holds(&self, id: usize, listener: L) -> bool {
        exists|i: int|
            0 <= i < self.ids@.len() && #[trigger] self.ids@[i] == id && self.listeners@[i]
                == listener
    }

    /// The id handed out last, from which the next one follows.
    pub closed spec fn last_id(&self) -> usize {
        self.last_listener_id
    }

    /// No id is held by two listeners.
    pub closed spec fn wf(&self) -> bool {
        &&& self.ids@.no_duplicates()
        &&& self.ids@.len() == self.listeners@.len()
    }

    /// A notifier with no listeners.
    pub fn new() -> (notifier: Notifier<T, L>)
        ensures
            notifier.wf(),
            notifier.listener_ids() == Seq::<usize>::empty(),
            notifier.last_id() == 0,
    {
        Notifier {
            last_listener_id: 0,
            ids: Vec::new(),
            listeners: Vec::new(),
            value: std::marker::PhantomData,
        }
    }

    /// The position of the listener with id `listener_id`, if one is held.
    fn position_of(&self, listener_id: usize) -> (position: Option<usize>)
        ensures
            match position {
                Some(i) => i < self.listener_ids().len() && self.listener_ids()[i as int]
                    == listener_id,
                None => !self.listener_ids().contains(listener_id),
            },
    {
        let mut i: usize = 0;
        while i < self.ids.len()
            invariant
                i <= self.ids.len(),
                forall|j: int| 0 <= j < i ==> self.listener_ids()[j] != listener_id,
            decreases self.ids.len() - i,
        {
            if self.ids[i] == listener_id {
                return Some(i);
            }
            i = i + 1;
        }
        None
    }

    /// The values the listener at position `i` has been told about so far.
    pub closed spec fn heard_at(&self, i: int) -> Seq<T> {
        self.listeners@[i].heard()
    }

    /// Tells every listener about `value`, once each, in the order they are held.
    pub fn notify(&mut self, value: &T)
        requires
            old(self).wf(),
        ensures
            final(self).wf(),
            final(self).listener_ids() == old(self).listener_ids(),
            final(self).last_id() == old(self).last_id(),
            forall|i: int|
                0 <= i < old(self).listener_ids().len() ==> #[trigger] final(self).heard_at(i)
                    == old(self).heard_at(i).push(*value),
    {
        let mut i: usize = 0;
        while i < self.listeners.len()
            invariant
                self.wf(),
                i <= self.listeners.len(),
                self.ids == old(self).ids,
                self.last_listener_id == old(self).last_listener_id,
                self.listeners@.len() == old(self).listeners@.len(),
                forall|j: int|
                    0 <= j < i ==> #[trigger] self.heard_at(j) == old(self).heard_at(j).push(*value),
                forall|j: int| i <= j < self.listeners@.len() ==> #[trigger] self.listeners@[j] == old(self).listeners@[j],
            decreases self.listeners.len() - i,
        {
            let ghost head = *self;
            let ghost before = self.listeners@;
            self.listeners[i].on_notified(value);
            proof {
                assert forall|j: int| 0 <= j < i + 1 implies #[trigger] self.heard_at(j)
                    == old(self).heard_at(j).push(*value) by {
                    if j < i {
                        assert(self.listeners@[j] == before[j]);
                        assert(head.heard_at(j) == old(self).heard_at(j).push(*value));
                    } else {
                        assert(before[j] == old(self).listeners@[j]);
                        assert(self.listeners@[j].heard() == before[j].heard().push(*value));
                    }
                }
            }
            i = i + 1;
        }
    }

    /// Adds `listener` under the id that follows the last one handed out, replacing a listener
    /// still held under that id after the ids wrapped around.
    pub fn add_listener(&mut self, listener: L) -> (handle: ListenerHandle)
        requires
            old(self).wf(),
        ensures
            final(self).wf(),
            handle.id() == next_listener_id(old(self).last_id()),
            final(self).last_id() == handle.id(),
            final(self).listener_ids().to_set() == old(self).listener_ids().to_set().insert(
                handle.id(),
            ),
            final(self).holds(handle.id(), listener),
            forall|id: usize, other: L|
                id != handle.id() ==> (final(self).holds(id, other) <==> old(self).holds(id, other)),
    {
        let listener_id = self.last_listener_id.wrapping_add(1);
        self.last_listener_id = listener_id;
        let ghost old_ids = self.listener_ids();
        match self.position_of(listener_id) {
            Some(i) => {
                self.listeners[i] = listener;
                assert(old_ids.contains(listener_id));
                assert(self.ids@[i as int] == listener_id);
                assert forall|id: usize, other: L|
                    id != listener_id implies (self.holds(id, other) <==> old(self).holds(
                        id,
                        other,
                    )) by {
                    if self.holds(id, other) {
                        let j = choose|j: int|
                            0 <= j < self.ids@.len() && #[trigger] self.ids@[j] == id
                                && self.listeners@[j] == other;
                        assert(old(self).ids@[j] == id);
                    }
                    if old(self).holds(id, other) {
                        let j = choose|j: int|
                            0 <= j < old(self).ids@.len() && #[trigger] old(self).ids@[j] == id
                                && old(self).listeners@[j] == other;
                        assert(self.ids@[j] == id);
                    }
                }
            },
            None => {
                self.ids.push(listener_id);
                self.listeners.push(listener);
                proof {
                    assert(self.ids@[old_ids.len() as int] == listener_id);
                    assert forall|id: usize, other: L|
                        id != listener_id implies (self.holds(id, other) <==> old(self).holds(
                            id,
                            other,
                        )) by {
                        if self.holds(id, other) {
                            let j = choose|j: int|
                                0 <= j < self.ids@.len() && #[trigger] self.ids@[j] == id
                                    && self.listeners@[j] == other;
                            assert(old(self).ids@[j] == id);
                        }
                        if old(self).holds(id, other) {
                            let j = choose|j: int|
                                0 <= j < old(self).ids@.len() && #[trigger] old(self).ids@[j]
                                    == id && old(self).listeners@[j] == other;
                            assert(self.ids@[j] == id);
                        }
                    }
                    old_ids.lemma_push_to_set_commute(listener_id);
                    assert forall|a: int, b: int|
                        0 <= a < self.ids@.len() && 0 <= b < self.ids@.len() && a != b
                        implies self.ids@[a] != self.ids@[b] by {
                        if b == old_ids.len() {
                            assert(old_ids.contains(self.ids@[a]));
                        }
                        if a == old_ids.len() {
                            assert(old_ids.contains(self.ids@[b]));
                        }
                    }
                }
            },
        }
        proof {
            if old_ids.contains(listener_id) {
                assert(old_ids.to_set().insert(listener_id) =~= old_ids.to_set());
            }
        }
        ListenerHandle { listener_id }
    }

    /// Removes the listener `handle` was given for; nothing changes when it is already gone.
    pub fn remove_listener(&mut self, handle: ListenerHandle)
        requires
            old(self).wf(),
        ensures
            final(self).wf(),
            final(self).last_id() == old(self).last_id(),
            final(self).listener_ids().to_set() == old(self).listener_ids().to_set().remove(
                handle.id(),
            ),
            forall|other: L| !final(self).holds(handle.id(), other),
            forall|id: usize, other: L|
                id != handle.id() ==> (final(self).holds(id, other) <==> old(self).holds(id, other)),
    {
        let ghost old_ids = self.listener_ids();
        match self.position_of(handle.listener_id) {
            Some(i) => {
                assert(old_ids[i as int] == handle.listener_id);
                self.ids.remove(i);
                self.listeners.remove(i);
                proof {
                    let removed = old_ids.remove(i as int);
                    assert forall|x: usize|
                        removed.contains(x) <==> (old_ids.contains(x) && x != handle.listener_id) by {
                        if old_ids.contains(x) && x != handle.listener_id {
                            let k = old_ids.index_of(x);
                            if k < i {
                                assert(removed[k] == x);
                            } else {
                                assert(removed[k - 1] == x);
                            }
                        }
                        if removed.contains(x) {
                            let k = removed.index_of(x);
                            if k < i {
                                assert(old_ids[k] == x);
                            } else {
                                assert(old_ids[k + 1] == x);
                            }
                        }
                    }
                    assert(removed.to_set() =~= old_ids.to_set().remove(handle.listener_id));
                    let gone = handle.listener_id;
                    assert forall|id: usize, other: L|
                        id != gone implies (self.holds(id, other) <==> old(self).holds(
                            id,
                            other,
                        )) by {
                        if self.holds(id, other) {
                            let j = choose|j: int|
                                0 <= j < self.ids@.len() && #[trigger] self.ids@[j] == id
                                    && self.listeners@[j] == other;
                            if j < i {
                                assert(old(self).ids@[j] == id);
                            } else {
                                assert(old(self).ids@[j + 1] == id);
                            }
                        }
                        if old(self).holds(id, other) {
                            let j = choose|j: int|
                                0 <= j < old(self).ids@.len() && #[trigger] old(self).ids@[j]
                                    == id && old(self).listeners@[j] == other;
                            if j < i {
                                assert(self.ids@[j] == id);
                            } else {
                                assert(self.ids@[j - 1] == id);
                            }
                        }
                    }
                    assert forall|other: L| !self.holds(gone, other) by {
                        if self.holds(gone, other) {
                            let j = choose|j: int|
                                0 <= j < self.ids@.len() && #[trigger] self.ids@[j] == gone
                                    && self.listeners@[j] == other;
                            assert(removed.contains(gone));
                        }
                    }
                }
            },
            None => {},
        }
        proof {
            if !old_ids.contains(handle.listener_id) {
                assert(old_ids.to_set().remove(handle.listener_id) =~= old_ids.to_set());
            }
        }
    }
}

} // verus!
