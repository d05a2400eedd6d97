use vstd::prelude::*;

use super::LayerId;
use crate::manager::widget::WidgetId;

verus! {

/// What one layer holds: its parent, its style (`None` for the default one), the widgets
/// drawing into it in order, and each widget's commands.
pub type LayerView<D, S> = (Option<u64>, Option<S>, Seq<WidgetId>, Seq<(WidgetId, Seq<D>)>);

struct LayerSlot<D, S> {
    id: u64,
    parent: Option<u64>,
    style: Option<S>,
    widgets: Vec<WidgetId>,
    commands: Vec<(WidgetId, Vec<D>)>,
}

/// The commands of each widget, by value.
pub open spec fn commands_view<D>(commands: Seq<(WidgetId, Vec<D>)>) -> Seq<(WidgetId, Seq<D>)> {
    commands.map_values(|c: (WidgetId, Vec<D>)| (c.0, c.1@))
}

spec fn slot_view<D, S>(slot: LayerSlot<D, S>) -> LayerView<D, S> {
    (slot.parent, slot.style, slot.widgets@, commands_view(slot.commands@))
}

spec fn holds_layer<D, S>(slots: Seq<LayerSlot<D, S>>, id: u64) -> bool {
    exists|i: int| 0 <= i < slots.len() && #[trigger] slots[i].id == id
}

spec fn slot_of<D, S>(slots: Seq<LayerSlot<D, S>>, id: u64) -> int {
    choose|i: int| 0 <= i < slots.len() && #[trigger] slots[i].id == id
}

spec fn slots_view<D, S>(slots: Seq<LayerSlot<D, S>>) -> Map<u64, LayerView<D, S>> {
    Map::new(|id: u64| holds_layer(slots, id), |id: u64| slot_view(slots[slot_of(slots, id)]))
}

spec fn distinct_layers<D, S>(slots: Seq<LayerSlot<D, S>>) -> bool {
    forall|i: int, j: int| 0 <= i < j < slots.len() ==> #[trigger] slots[i].id != #[trigger] slots[j].id
}

proof fn lemma_slot_position<D, S>(slots: Seq<LayerSlot<D, S>>, i: int)
    requires
        distinct_layers(slots),
        0 <= i < slots.len(),
    ensures
        slots_view(slots).dom().contains(slots[i].id),
        slot_of(slots, slots[i].id) == i,
        slots_view(slots)[slots[i].id] == slot_view(slots[i]),
{
    let id = slots[i].id;
    assert(holds_layer(slots, id));
    let k = slot_of(slots, id);
    if k != i {
        if k < i {
            assert(slots[k].id != slots[i].id);
        } else {
            assert(slots[i].id != slots[k].id);
        }
    }
}

proof fn lemma_slot_update<D, S>(slots: Seq<LayerSlot<D, S>>, i: int, slot: LayerSlot<D, S>)
    requires
        distinct_layers(slots),
        0 <= i < slots.len(),
        slot.id == slots[i].id,
    ensures
        distinct_layers(slots.update(i, slot)),
        slots_view(slots.update(i, slot)) == slots_view(slots).insert(slot.id, slot_view(slot)),
{
    let updated = slots.update(i, slot);
    assert forall|a: int, b: int| 0 <= a < b < updated.len() implies #[trigger] updated[a].id
        != #[trigger] updated[b].id by {
        assert(updated[a].id == slots[a].id && updated[b].id == slots[b].id);
    }
    let want = slots_view(slots).insert(slot.id, slot_view(slot));
    assert forall|x: u64| #[trigger] slots_view(updated).dom().contains(x) <==> want.dom().contains(x) by {
        if holds_layer(updated, x) {
            let k = slot_of(updated, x);
            assert(slots[k].id == x);
        }
        if holds_layer(slots, x) {
            let k = slot_of(slots, x);
            assert(updated[k].id == x);
        }
    }
    assert forall|x: u64| #[trigger] slots_view(updated).dom().contains(x) implies slots_view(updated)[x]
        == want[x] by {
        let k = slot_of(updated, x);
        lemma_slot_position(updated, k);
        if k != i {
            assert(slots[k] == updated[k]);
            lemma_slot_position(slots, k);
        }
    }
    assert(slots_view(updated) =~= want);
}

proof fn lemma_slot_push<D, S>(slots: Seq<LayerSlot<D, S>>, slot: LayerSlot<D, S>)
    requires
        distinct_layers(slots),
        !slots_view(slots).dom().contains(slot.id),
    ensures
        distinct_layers(slots.push(slot)),
        slots_view(slots.push(slot)) == slots_view(slots).insert(slot.id, slot_view(slot)),
{
    let grown = slots.push(slot);
    assert forall|a: int, b: int| 0 <= a < b < grown.len() implies #[trigger] grown[a].id
        != #[trigger] grown[b].id by {
        if b == slots.len() {
            assert(grown[a] == slots[a]);
            assert(holds_layer(slots, slots[a].id));
        } else {
            assert(grown[a] == slots[a] && grown[b] == slots[b]);
        }
    }
    let want = slots_view(slots).insert(slot.id, slot_view(slot));
    assert forall|x: u64| #[trigger] slots_view(grown).dom().contains(x) <==> want.dom().contains(x) by {
        if holds_layer(grown, x) {
            let k = slot_of(grown, x);
            if k < slots.len() {
                assert(slots[k].id == x);
            }
        }
        if holds_layer(slots, x) {
            let k = slot_of(slots, x);
            assert(grown[k].id == x);
        }
        if x == slot.id {
            assert(grown[slots.len() as int].id == x);
        }
    }
    assert forall|x: u64| #[trigger] slots_view(grown).dom().contains(x) implies slots_view(grown)[x]
        == want[x] by {
        let k = slot_of(grown, x);
        lemma_slot_position(grown, k);
        if k < slots.len() {
            assert(grown[k] == slots[k]);
            lemma_slot_position(slots, k);
        }
    }
    assert(slots_view(grown) =~= want);
}

proof fn lemma_slot_remove<D, S>(slots: Seq<LayerSlot<D, S>>, i: int)
    requires
        distinct_layers(slots),
        0 <= i < slots.len(),
    ensures
        distinct_layers(slots.remove(i)),
        slots_view(slots.remove(i)) == slots_view(slots).remove(slots[i].id),
{
    let shrunk = slots.remove(i);
    let gone = slots[i].id;
    assert forall|a: int, b: int| 0 <= a < b < shrunk.len() implies #[trigger] shrunk[a].id != #[trigger] shrunk[b].id by {
        let a1 = if a < i { a } else { a + 1 };
        let b1 = if b < i { b } else { b + 1 };
        assert(shrunk[a] == slots[a1] && shrunk[b] == slots[b1]);
    }
    let want = slots_view(slots).remove(gone);
    assert forall|x: u64| #[trigger] slots_view(shrunk).dom().contains(x) <==> want.dom().contains(x) by {
        if holds_layer(shrunk, x) {
            let k = slot_of(shrunk, x);
            let k1 = if k < i { k } else { k + 1 };
            assert(shrunk[k] == slots[k1]);
            assert(holds_layer(slots, x));
            if x == gone {
                if k1 < i {
                    assert(slots[k1].id != slots[i].id);
                } else {
                    assert(slots[i].id != slots[k1].id);
                }
            }
        }
        if holds_layer(slots, x) && x != gone {
            let k = slot_of(slots, x);
            assert(k != i);
            let k1 = if k < i { k } else { k - 1 };
            assert(shrunk[k1] == slots[k]);
        }
    }
    assert forall|x: u64| #[trigger] slots_view(shrunk).dom().contains(x) implies slots_view(shrunk)[x]
        == want[x] by {
        let k = slot_of(shrunk, x);
        lemma_slot_position(shrunk, k);
        let k1 = if k < i { k } else { k + 1 };
        assert(shrunk[k] == slots[k1]);
        lemma_slot_position(slots, k1);
    }
    assert(slots_view(shrunk) =~= want);
}

/// The layers of the render tree, each by id, with the widgets drawing into it.
pub struct LayerForest<D, S> {
    slots: Vec<LayerSlot<D, S>>,
    next_id: u64,
}

/// The widget list of a layer once `widget` draws into it: appended unless already last.
pub open spec fn with_widget(widgets: Seq<WidgetId>, widget: WidgetId) -> Seq<WidgetId> {
    if widgets.len() > 0 && widgets.last() == widget {
        widgets
    } else {
        widgets.push(widget)
    }
}

/// The commands of a layer with those of `widget` left out.
pub open spec fn without_commands<D>(commands: Seq<(WidgetId, Seq<D>)>, widget: WidgetId) -> Seq<
    (WidgetId, Seq<D>),
>
    decreases commands.len(),
{
    if commands.len() == 0 {
        commands
    } else {
        let rest = without_commands(commands.drop_last(), widget);
        if commands.last().0 == widget {
            rest
        } else {
            rest.push(commands.last())
        }
    }
}

/// The widgets a layer holds commands for, in order.
pub open spec fn command_keys<D>(commands: Seq<(WidgetId, Seq<D>)>) -> Seq<WidgetId> {
    commands.map_values(|c: (WidgetId, Seq<D>)| c.0)
}

/// The commands of a layer with `widget`'s replaced by `head`, or added where it had none.
pub open spec fn with_commands<D>(commands: Seq<(WidgetId, Seq<D>)>, widget: WidgetId, head: Seq<D>) -> Seq<
    (WidgetId, Seq<D>),
> {
    match command_keys(commands).index_of_first(widget) {
        Some(k) => commands.update(k, (widget, head)),
        None => commands.push((widget, head)),
    }
}

/// The layer `layer` once `widget` draws into it with the head commands `head`: the widget
/// joins its widgets, and its commands become `head` where `head` is not empty.
pub open spec fn drawn_into<D, S>(layer: LayerView<D, S>, widget: WidgetId, head: Seq<D>) -> LayerView<D, S> {
    (layer.0, layer.1, with_widget(layer.2, widget), if head.len() > 0 {
        with_commands(layer.3, widget, head)
    } else {
        layer.3
    })
}

impl<D, S> LayerForest<D, S> {
    /// The layers by id.
    pub closed spec fn view(&self) -> Map<u64, LayerView<D, S>> {
        slots_view(self.slots@)
    }

    /// The id the next added layer gets.
    pub closed spec fn next_id(&self) -> u64 {
        self.next_id
    }

    /// No id is held twice, and every id held is below the next one handed out.
    pub closed spec fn wf(&self) -> bool {
        &&& distinct_layers(self.slots@)
        &&& forall|i: int| 0 <= i < self.slots@.len() ==> #[trigger] self.slots@[i].id < self.next_id
    }

    /// A forest with no layers.
    pub fn new() -> (forest: LayerForest<D, S>)
        ensures
            forest.wf(),
            forest@ == Map::<u64, LayerView<D, S>>::empty(),
            forest.next_id() == 0,
    {
        let forest = LayerForest { slots: Vec::new(), next_id: 0 };
        assert(forest@ =~= Map::<u64, LayerView<D, S>>::empty());
        forest
    }

    fn position(&self, id: u64) -> (found: Option<usize>)
        requires
            self.wf(),
        ensures
            match found {
                Some(i) => i < self.slots@.len() && self.slots@[i as int].id == id,
                None => !self@.dom().contains(id),
            },
    {
        let mut i: usize = 0;
        while i < self.slots.len()
            invariant
                i <= self.slots@.len(),
                forall|j: int| 0 <= j < i ==> #[trigger] self.slots@[j].id != id,
            decreases self.slots@.len() - i,
        {
            if self.slots[i].id == id {
                return Some(i);
            }
            i = i + 1;
        }
        None
    }

    /// Whether the forest holds the layer `id`.
    pub fn contains(&self, id: LayerId) -> (held: bool)
        requires
            self.wf(),
        ensures
            held == self@.dom().contains(id.0),
    {
        match self.position(id.0) {
            Some(i) => {
                proof {
                    lemma_slot_position(self.slots@, i as int);
                }
                true
            },
            None => false,
        }
    }

    /// Whether another layer can still be added.
    pub fn has_room(&self) -> (room: bool)
        ensures
            room == (self.next_id() < u64::MAX),
    {
        self.next_id < u64::MAX
    }

    /// Every id the forest holds is below the next one it hands out.
    pub proof fn lemma_ids_below_next(&self)
        requires
            self.wf(),
        ensures
            forall|id: u64| #[trigger] self@.dom().contains(id) ==> id < self.next_id(),
    {
        assert forall|id: u64| #[trigger] self@.dom().contains(id) implies id < self.next_id() by {
            let k = slot_of(self.slots@, id);
            assert(self.slots@[k].id < self.next_id);
        }
    }

    /// Lets `widget` draw into the layer `target` with the head commands `head`.
    pub fn draw_into(&mut self, target: LayerId, widget: WidgetId, head: Vec<D>)
        requires
            old(self).wf(),
            old(self)@.dom().contains(target.0),
        ensures
            final(self).wf(),
            final(self).next_id() == old(self).next_id(),
            final(self)@ == old(self)@.insert(target.0, drawn_into(old(self)@[target.0], widget, head@)),
    {
        let pos = match self.position(target.0) {
            Some(pos) => pos,
            None => {
                return;
            },
        };
        let ghost s0 = self.slots@;
        proof {
            lemma_slot_position(s0, pos as int);
        }
        let n = self.slots[pos].widgets.len();
        if n == 0 || self.slots[pos].widgets[n - 1].0 != widget.0 {
            self.slots[pos].widgets.push(widget);
        }
        let ghost s1 = self.slots@;
        assert(self.slots@[pos as int].widgets@ == with_widget(s0[pos as int].widgets@, widget));
        if head.len() > 0 {
            let ghost cmds = commands_view(self.slots@[pos as int].commands@);
            let ghost keys = command_keys(cmds);
            let mut k: usize = 0;
            let mut found = false;
            while k < self.slots[pos].commands.len()
                invariant
                    pos < self.slots@.len(),
                    self.slots@ == s1,
                    cmds == commands_view(self.slots@[pos as int].commands@),
                    keys == command_keys(cmds),
                    k <= keys.len(),
                    forall|j: int| 0 <= j < k ==> keys[j] != widget,
                    found ==> k < keys.len() && keys[k as int] == widget,
                ensures
                    self.slots@ == s1,
                    forall|j: int| 0 <= j < k ==> keys[j] != widget,
                    found ==> k < keys.len() && keys[k as int] == widget,
                    !found ==> k == keys.len(),
                decreases keys.len() - k + (if found { 0int } else { 1int }),
            {
                if self.slots[pos].commands[k].0.0 == widget.0 {
                    found = true;
                    break;
                }
                k = k + 1;
            }
            proof {
                keys.index_of_first_ensures(widget);
            }
            let ghost head_view = head@;
            if found {
                self.slots[pos].commands[k] = (widget, head);
                proof {
                    match keys.index_of_first(widget) {
                        Some(f) => {
                            if f < k {
                                assert(keys[f] != widget);
                            } else if f > k {
                                assert(keys[k as int] == widget);
                            }
                        },
                        None => {
                            assert(keys.contains(widget));
                        },
                    }
                    assert(commands_view(self.slots@[pos as int].commands@) =~= with_commands(cmds, widget, head_view));
                }
            } else {
                self.slots[pos].commands.push((widget, head));
                proof {
                    if keys.contains(widget) {
                        let j = choose|j: int| 0 <= j < keys.len() && keys[j] == widget;
                        assert(keys[j] != widget);
                    }
                    assert(commands_view(self.slots@[pos as int].commands@) =~= with_commands(cmds, widget, head_view));
                }
            }
        }
        proof {
            lemma_slot_update(s0, pos as int, self.slots@[pos as int]);
            assert(self.slots@ == s0.update(pos as int, self.slots@[pos as int]));
            assert forall|i: int| 0 <= i < self.slots@.len() implies #[trigger] self.slots@[i].id < self.next_id by {
                assert(self.slots@[i].id == s0[i].id);
            }
        }
    }

    /// How many layers the forest holds.
    pub closed spec fn size(&self) -> nat {
        self.slots@.len()
    }

    /// Removes every layer, going on numbering after the ids already handed out.
    pub fn clear(&mut self)
        ensures
            final(self).wf(),
            final(self)@ == Map::<u64, LayerView<D, S>>::empty(),
            final(self).next_id() == old(self).next_id(),
    {
        self.slots = Vec::new();
        assert(self@ =~= Map::<u64, LayerView<D, S>>::empty());
    }

    /// How many widgets draw into the layer `id`; none where it is not held.
    pub fn widget_count(&self, id: LayerId) -> (count: usize)
        requires
            self.wf(),
        ensures
            count == (if self@.dom().contains(id.0) {
                self@[id.0].2.len() as int
            } else {
                0int
            }),
    {
        match self.position(id.0) {
            Some(pos) => {
                proof {
                    lemma_slot_position(self.slots@, pos as int);
                }
                self.slots[pos].widgets.len()
            },
            None => 0,
        }
    }

    /// Whether the layer `id` is held and holds commands of `widget`.
    pub fn has_commands(&self, id: LayerId, widget: WidgetId) -> (found: bool)
        requires
            self.wf(),
        ensures
            found == (self@.dom().contains(id.0) && command_keys(self@[id.0].3).contains(widget)),
    {
        match self.position(id.0) {
            Some(pos) => {
                proof {
                    lemma_slot_position(self.slots@, pos as int);
                }
                let commands = &self.slots[pos].commands;
                let ghost keys = command_keys(commands_view(commands@));
                let mut k: usize = 0;
                while k < commands.len()
                    invariant
                        k <= commands@.len(),
                        keys == command_keys(commands_view(commands@)),
                        keys == command_keys(self@[id.0].3),
                        self@.dom().contains(id.0),
                        forall|j: int| 0 <= j < k ==> keys[j] != widget,
                    decreases commands@.len() - k,
                {
                    if commands[k].0.0 == widget.0 {
                        assert(keys[k as int] == widget);
                        assert(keys.contains(widget));
                        return true;
                    }
                    k = k + 1;
                }
                proof {
                    if keys.contains(widget) {
                        let j = choose|j: int| 0 <= j < keys.len() && keys[j] == widget;
                        assert(keys[j] != widget);
                    }
                }
                false
            },
            None => false,
        }
    }

    /// Removes the layer `id`, returning whether it was held. Layers under it stay.
    pub fn remove(&mut self, id: LayerId) -> (held: bool)
        requires
            old(self).wf(),
        ensures
            final(self).wf(),
            final(self).next_id() == old(self).next_id(),
            held == old(self)@.dom().contains(id.0),
            final(self)@ == old(self)@.remove(id.0),
            held ==> final(self).size() + 1 == old(self).size(),
            !held ==> final(self).size() == old(self).size(),
    {
        match self.position(id.0) {
            Some(pos) => {
                let ghost s0 = self.slots@;
                proof {
                    lemma_slot_position(s0, pos as int);
                    lemma_slot_remove(s0, pos as int);
                }
                self.slots.remove(pos);
                proof {
                    assert forall|i: int| 0 <= i < self.slots@.len() implies #[trigger] self.slots@[i].id < self.next_id by {
                        let i1 = if i < pos { i } else { i + 1 };
                        assert(self.slots@[i] == s0[i1]);
                    }
                }
                true
            },
            None => {
                assert(self@.remove(id.0) =~= self@);
                false
            },
        }
    }

    /// The layers whose parent is `id`.
    pub fn children_of(&self, id: LayerId) -> (children: Vec<LayerId>)
        requires
            self.wf(),
        ensures
            forall|k: int| 0 <= k < children@.len() ==> self@.dom().contains(#[trigger] children@[k].0)
                && self@[children@[k].0].0 == Some(id.0),
            forall|c: u64| #[trigger] self@.dom().contains(c) && self@[c].0 == Some(id.0) ==> exists|k: int|
                0 <= k < children@.len() && #[trigger] children@[k].0 == c,
    {
        let mut out: Vec<LayerId> = Vec::new();
        let mut i: usize = 0;
        while i < self.slots.len()
            invariant
                self.wf(),
                i <= self.slots@.len(),
                forall|k: int| 0 <= k < out@.len() ==> self@.dom().contains(#[trigger] out@[k].0)
                    && self@[out@[k].0].0 == Some(id.0),
                forall|j: int| 0 <= j < i && #[trigger] self.slots@[j].parent == Some(id.0) ==> exists|k: int|
                    0 <= k < out@.len() && #[trigger] out@[k].0 == self.slots@[j].id,
            decreases self.slots@.len() - i,
        {
            proof {
                lemma_slot_position(self.slots@, i as int);
            }
            if self.slots[i].parent == Some(id.0) {
                let ghost before = out@;
                out.push(LayerId(self.slots[i].id));
                proof {
                    assert forall|j: int| 0 <= j < i + 1 && #[trigger] self.slots@[j].parent == Some(id.0) implies exists|k: int|
                        0 <= k < out@.len() && #[trigger] out@[k].0 == self.slots@[j].id by {
                        if j < i {
                            let k = choose|k: int| 0 <= k < before.len() && #[trigger] before[k].0 == self.slots@[j].id;
                            assert(out@[k] == before[k]);
                        } else {
                            assert(out@[before.len() as int].0 == self.slots@[j].id);
                        }
                    }
                }
            }
            i = i + 1;
        }
        proof {
            assert forall|c: u64| #[trigger] self@.dom().contains(c) && self@[c].0 == Some(id.0) implies exists|k: int|
                0 <= k < out@.len() && #[trigger] out@[k].0 == c by {
                let j = slot_of(self.slots@, c);
                lemma_slot_position(self.slots@, j);
                assert(self.slots@[j].parent == Some(id.0));
            }
        }
        out
    }

    /// Drops the commands `widget` drew into the layer `id`, where that layer is held.
    pub fn remove_commands(&mut self, id: LayerId, widget: WidgetId)
        requires
            old(self).wf(),
        ensures
            final(self).wf(),
            final(self).next_id() == old(self).next_id(),
            final(self)@.dom() == old(self)@.dom(),
            old(self)@.dom().contains(id.0) ==> final(self)@ == old(self)@.insert(
                id.0,
                (
                    old(self)@[id.0].0,
                    old(self)@[id.0].1,
                    old(self)@[id.0].2,
                    without_commands(old(self)@[id.0].3, widget),
                ),
            ),
            !old(self)@.dom().contains(id.0) ==> final(self)@ == old(self)@,
    {
        let pos = match self.position(id.0) {
            Some(pos) => pos,
            None => {
                return;
            },
        };
        let ghost s0 = self.slots@;
        proof {
            lemma_slot_position(s0, pos as int);
        }
        let mut kept: Vec<(WidgetId, Vec<D>)> = Vec::new();
        let mut old_commands: Vec<(WidgetId, Vec<D>)> = Vec::new();
        std::mem::swap(&mut old_commands, &mut self.slots[pos].commands);
        let ghost s_mid = self.slots@;
        let ghost all = commands_view(old_commands@);
        assert(all == s0[pos as int].commands@.map_values(|c: (WidgetId, Vec<D>)| (c.0, c.1@)));
        let ghost mut taken: int = 0;
        while old_commands.len() > 0
            invariant
                0 <= taken <= all.len(),
                self.slots@ == s_mid,
                old_commands@.len() == all.len() - taken,
                commands_view(old_commands@) == all.skip(taken),
                commands_view(kept@) == without_commands(all.take(taken), widget),
            decreases old_commands@.len(),
        {
            let ghost before = old_commands@;
            let entry = old_commands.remove(0);
            proof {
                assert(entry == before[0]);
                assert(commands_view(before)[0] == (before[0].0, before[0].1@));
                assert(all.skip(taken)[0] == all[taken]);
                assert(all[taken] == (entry.0, entry.1@));
                assert forall|j: int| 0 <= j < old_commands@.len() implies #[trigger] commands_view(old_commands@)[j]
                    == all.skip(taken + 1)[j] by {
                    assert(old_commands@[j] == before[j + 1]);
                    assert(commands_view(before)[j + 1] == all.skip(taken)[j + 1]);
                }
                assert(commands_view(old_commands@) =~= all.skip(taken + 1));
                assert(all.take(taken + 1).drop_last() =~= all.take(taken));
                assert(all.take(taken + 1).last() == all[taken]);
            }
            if entry.0.0 != widget.0 {
                let ghost kv = kept@;
                kept.push(entry);
                proof {
                    assert(commands_view(kept@) =~= commands_view(kv).push((entry.0, entry.1@)));
                }
            }
            proof {
                taken = taken + 1;
            }
        }
        proof {
            assert(all.take(taken) =~= all);
        }
        self.slots[pos].commands = kept;
        proof {
            assert(self.slots@ =~= s0.update(pos as int, self.slots@[pos as int]));
            lemma_slot_update(s0, pos as int, self.slots@[pos as int]);
            assert(self@.dom() =~= old(self)@.dom());
            assert forall|i: int| 0 <= i < self.slots@.len() implies #[trigger] self.slots@[i].id < self.next_id by {
                assert(self.slots@[i].id == s0[i].id);
            }
        }
    }

    /// Adds a layer under `parent`, or as a root, with `style` (`None` for the default one)
    /// and the widgets `widgets` drawing into it.
    pub fn add(&mut self, parent: Option<LayerId>, style: Option<S>, widgets: Vec<WidgetId>) -> (id: LayerId)
        requires
            old(self).wf(),
            old(self).next_id() < u64::MAX,
        ensures
            final(self).wf(),
            id.0 == old(self).next_id(),
            final(self).next_id() == old(self).next_id() + 1,
            !old(self)@.dom().contains(id.0),
            final(self)@ == old(self)@.insert(
                id.0,
                (
                    match parent {
                        Some(p) => Some(p.0),
                        None => None,
                    },
                    style,
                    widgets@,
                    Seq::<(WidgetId, Seq<D>)>::empty(),
                ),
            ),
    {
        let id = self.next_id;
        proof {
            if self@.dom().contains(id) {
                let k = slot_of(self.slots@, id);
                assert(self.slots@[k].id < id);
            }
        }
        let raw = match parent {
            Some(p) => Some(p.0),
            None => None,
        };
        let slot = LayerSlot { id, parent: raw, style, widgets, commands: Vec::new() };
        let ghost s0 = self.slots@;
        proof {
            lemma_slot_push(s0, slot);
            assert(commands_view(slot.commands@) =~= Seq::<(WidgetId, Seq<D>)>::empty());
        }
        self.slots.push(slot);
        self.next_id = id + 1;
        proof {
            assert forall|i: int| 0 <= i < self.slots@.len() implies #[trigger] self.slots@[i].id < self.next_id by {
                if i < s0.len() {
                    assert(self.slots@[i] == s0[i]);
                }
            }
        }
        LayerId(id)
    }
}

} // verus!
