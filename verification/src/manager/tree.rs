use vstd::prelude::*;

use crate::manager::widget::WidgetId;

verus! {

/// Identifies a widget value handed to the manager. Widgets are shared handles compared by
/// identity, so the manager tracks each by an integer of its own.
#[derive(Clone, Copy, PartialEq, Eq, Debug, Hash)]
pub struct WidgetRefId(pub u64);

/// What the tree holds for one element: its parent, its children in order, and the widget
/// it was created from.
pub type NodeView = (Option<u64>, Seq<u64>, u64);

struct TreeNode {
    id: u64,
    parent: Option<u64>,
    children: Vec<u64>,
    widget: u64,
}

spec fn node_view(node: TreeNode) -> NodeView {
    (node.parent, node.children@, node.widget)
}

spec fn holds_id(nodes: Seq<TreeNode>, id: u64) -> bool {
    exists|i: int| 0 <= i < nodes.len() && #[trigger] nodes[i].id == id
}

spec fn position_of(nodes: Seq<TreeNode>, id: u64) -> int {
    choose|i: int| 0 <= i < nodes.len() && #[trigger] nodes[i].id == id
}

/// The element tree: each element by its id, with its parent, its ordered children and its
/// widget.
pub struct WidgetTree {
    nodes: Vec<TreeNode>,
    next_id: u64,
}

/// The tree `tree` with a new element `id` for `widget` added as the last child of `parent`,
/// or as a parentless element.
pub open spec fn added(tree: Map<u64, NodeView>, parent: Option<u64>, widget: u64, id: u64) -> Map<
    u64,
    NodeView,
> {
    let grown = tree.insert(id, (parent, Seq::<u64>::empty(), widget));
    match parent {
        Some(p) => grown.insert(p, (tree[p].0, tree[p].1.push(id), tree[p].2)),
        None => grown,
    }
}

/// `children` without the first occurrence of `id`.
pub open spec fn without_child(children: Seq<u64>, id: u64) -> Seq<u64> {
    match children.index_of_first(id) {
        Some(k) => children.remove(k),
        None => children,
    }
}

/// The tree `tree` with element `id` moved to the end of the children of `parent` (or made
/// parentless), and whether that changed its parent. Moving an element under the parent it
/// already has changes nothing.
pub open spec fn reparented(tree: Map<u64, NodeView>, parent: Option<u64>, id: u64) -> (Map<
    u64,
    NodeView,
>, bool) {
    let old_parent = tree[id].0;
    if old_parent == parent {
        (tree, false)
    } else {
        let moved = tree.insert(id, (parent, tree[id].1, tree[id].2));
        let detached = match old_parent {
            Some(q) => if moved.dom().contains(q) {
                moved.insert(q, (moved[q].0, without_child(moved[q].1, id), moved[q].2))
            } else {
                moved
            },
            None => moved,
        };
        let attached = match parent {
            Some(p) => detached.insert(p, (detached[p].0, detached[p].1.push(id), detached[p].2)),
            None => detached,
        };
        (attached, true)
    }
}

spec fn nodes_view(nodes: Seq<TreeNode>) -> Map<u64, NodeView> {
    Map::new(|id: u64| holds_id(nodes, id), |id: u64| node_view(nodes[position_of(nodes, id)]))
}

spec fn unique_widgets(nodes: Seq<TreeNode>) -> bool {
    forall|i: int, j: int|
        0 <= i < j < nodes.len() ==> #[trigger] nodes[i].widget != #[trigger] nodes[j].widget
}

spec fn unique_ids(nodes: Seq<TreeNode>) -> bool {
    forall|i: int, j: int| 0 <= i < j < nodes.len() ==> #[trigger] nodes[i].id != #[trigger] nodes[j].id
}

proof fn lemma_nodes_position(nodes: Seq<TreeNode>, i: int)
    requires
        unique_ids(nodes),
        0 <= i < nodes.len(),
    ensures
        nodes_view(nodes).dom().contains(nodes[i].id),
        position_of(nodes, nodes[i].id) == i,
        nodes_view(nodes)[nodes[i].id] == node_view(nodes[i]),
{
    let id = nodes[i].id;
    assert(holds_id(nodes, id));
    let k = position_of(nodes, id);
    if k != i {
        if k < i {
            assert(nodes[k].id != nodes[i].id);
        } else {
            assert(nodes[i].id != nodes[k].id);
        }
    }
}

proof fn lemma_nodes_update(nodes: Seq<TreeNode>, i: int, node: TreeNode)
    requires
        unique_ids(nodes),
        0 <= i < nodes.len(),
        node.id == nodes[i].id,
        node.widget == nodes[i].widget,
    ensures
        unique_ids(nodes.update(i, node)),
        unique_widgets(nodes) ==> unique_widgets(nodes.update(i, node)),
        nodes_view(nodes.update(i, node)) == nodes_view(nodes).insert(node.id, node_view(node)),
{
    let updated = nodes.update(i, node);
    assert forall|a: int, b: int| 0 <= a < b < updated.len() implies #[trigger] updated[a].id
        != #[trigger] updated[b].id by {
        assert(updated[a].id == nodes[a].id && updated[b].id == nodes[b].id);
    }
    if unique_widgets(nodes) {
        assert forall|a: int, b: int| 0 <= a < b < updated.len() implies #[trigger] updated[a].widget
            != #[trigger] updated[b].widget by {
            assert(updated[a].widget == nodes[a].widget && updated[b].widget == nodes[b].widget);
        }
    }
    let want = nodes_view(nodes).insert(node.id, node_view(node));
    assert forall|x: u64| #[trigger] nodes_view(updated).dom().contains(x) <==> want.dom().contains(x) by {
        if holds_id(updated, x) {
            let k = position_of(updated, x);
            assert(nodes[k].id == x);
        }
        if holds_id(nodes, x) {
            let k = position_of(nodes, x);
            assert(updated[k].id == x);
        }
    }
    assert forall|x: u64| #[trigger] nodes_view(updated).dom().contains(x) implies nodes_view(updated)[x]
        == want[x] by {
        let k = position_of(updated, x);
        lemma_nodes_position(updated, k);
        if k != i {
            assert(nodes[k] == updated[k]);
            lemma_nodes_position(nodes, k);
        }
    }
    assert(nodes_view(updated) =~= want);
}

proof fn lemma_nodes_remove(nodes: Seq<TreeNode>, i: int)
    requires
        unique_ids(nodes),
        0 <= i < nodes.len(),
    ensures
        unique_ids(nodes.remove(i)),
        unique_widgets(nodes) ==> unique_widgets(nodes.remove(i)),
        nodes_view(nodes.remove(i)) == nodes_view(nodes).remove(nodes[i].id),
{
    let shrunk = nodes.remove(i);
    let gone = nodes[i].id;
    assert forall|a: int| 0 <= a < shrunk.len() implies #[trigger] shrunk[a] == nodes[if a < i { a } else { a + 1 }] by {}
    assert forall|a: int, b: int| 0 <= a < b < shrunk.len() implies #[trigger] shrunk[a].id != #[trigger] shrunk[b].id by {
        let a1 = if a < i { a } else { a + 1 };
        let b1 = if b < i { b } else { b + 1 };
        assert(shrunk[a] == nodes[a1] && shrunk[b] == nodes[b1]);
    }
    if unique_widgets(nodes) {
        assert forall|a: int, b: int| 0 <= a < b < shrunk.len() implies #[trigger] shrunk[a].widget
            != #[trigger] shrunk[b].widget by {
            let a1 = if a < i { a } else { a + 1 };
            let b1 = if b < i { b } else { b + 1 };
            assert(shrunk[a] == nodes[a1] && shrunk[b] == nodes[b1]);
        }
    }
    let want = nodes_view(nodes).remove(gone);
    assert forall|x: u64| #[trigger] nodes_view(shrunk).dom().contains(x) <==> want.dom().contains(x) by {
        if holds_id(shrunk, x) {
            let k = position_of(shrunk, x);
            let k1 = if k < i { k } else { k + 1 };
            assert(shrunk[k] == nodes[k1]);
            assert(holds_id(nodes, x));
            if x == gone {
                if k1 < i {
                    assert(nodes[k1].id != nodes[i].id);
                } else {
                    assert(nodes[i].id != nodes[k1].id);
                }
            }
        }
        if holds_id(nodes, x) && x != gone {
            let k = position_of(nodes, x);
            assert(k != i);
            let k1 = if k < i { k } else { k - 1 };
            assert(shrunk[k1] == nodes[k]);
        }
    }
    assert forall|x: u64| #[trigger] nodes_view(shrunk).dom().contains(x) implies nodes_view(shrunk)[x]
        == want[x] by {
        let k = position_of(shrunk, x);
        lemma_nodes_position(shrunk, k);
        let k1 = if k < i { k } else { k + 1 };
        assert(shrunk[k] == nodes[k1]);
        lemma_nodes_position(nodes, k1);
    }
    assert(nodes_view(shrunk) =~= want);
}

/// The raw id of an optional parent.
pub open spec fn raw_parent(parent: Option<WidgetId>) -> Option<u64> {
    match parent {
        Some(p) => Some(p.0),
        None => None,
    }
}

/// Whether `parent`, where there is one, is held in `tree`.
pub open spec fn parent_held(tree: Map<u64, NodeView>, parent: Option<WidgetId>) -> bool {
    match parent {
        Some(p) => tree.dom().contains(p.0),
        None => true,
    }
}

/// The tree `tree` without the element `id`, which its parent, where held, no longer lists
/// as a child. Its own children stay, detached.
pub open spec fn removed(tree: Map<u64, NodeView>, id: u64) -> Map<u64, NodeView> {
    let rest = tree.remove(id);
    match tree[id].0 {
        Some(q) => if rest.dom().contains(q) {
            rest.insert(q, (rest[q].0, without_child(rest[q].1, id), rest[q].2))
        } else {
            rest
        },
        None => rest,
    }
}

/// The raw ids of a sequence of elements.
pub open spec fn raw_ids(ids: Seq<WidgetId>) -> Seq<u64> {
    ids.map_values(|c: WidgetId| c.0)
}

/// An optional raw id as an element id.
pub open spec fn as_widget(raw: Option<u64>) -> Option<WidgetId> {
    match raw {
        Some(p) => Some(WidgetId(p)),
        None => None,
    }
}

/// The element an event spawns, if it is a spawn.
pub open spec fn spawn_of(event: crate::manager::spawn::ElementEvent) -> Option<u64> {
    match event {
        crate::manager::spawn::ElementEvent::Spawned { element_id, .. } => Some(element_id.0),
        _ => None,
    }
}

/// Whether `events` spawn every element of `tree` once, each under its parent, and nothing else.
pub open spec fn lists_tree(tree: Map<u64, NodeView>, events: Seq<crate::manager::spawn::ElementEvent>) -> bool {
    &&& forall|k: int|
        0 <= k < events.len() ==> match #[trigger] events[k] {
            crate::manager::spawn::ElementEvent::Spawned { parent_id, element_id } => tree.dom().contains(element_id.0)
                && parent_id == as_widget(tree[element_id.0].0),
            _ => false,
        }
    &&& forall|id: u64| #[trigger] tree.dom().contains(id) ==> exists|k: int| 0 <= k < events.len() && spawn_of(events[k]) == Some(id)
    &&& forall|a: int, b: int| 0 <= a < b < events.len() ==> spawn_of(#[trigger] events[a]) != spawn_of(#[trigger] events[b])
}

impl WidgetTree {
    /// The elements by id.
    pub closed spec fn view(&self) -> Map<u64, NodeView> {
        nodes_view(self.nodes@)
    }

    /// The id the next added element gets.
    pub closed spec fn next_id(&self) -> u64 {
        self.next_id
    }

    /// No id and no widget is held twice, and every id held is below the next one handed out.
    pub closed spec fn wf(&self) -> bool {
        &&& unique_ids(self.nodes@)
        &&& unique_widgets(self.nodes@)
        &&& forall|i: int| 0 <= i < self.nodes@.len() ==> #[trigger] self.nodes@[i].id < self.next_id
    }

    /// Every id the tree holds is below the next one it hands out.
    pub proof fn lemma_ids_below_next(&self)
        requires
            self.wf(),
        ensures
            forall|id: u64| #[trigger] self@.dom().contains(id) ==> id < self.next_id(),
    {
        assert forall|id: u64| #[trigger] self@.dom().contains(id) implies id < self.next_id() by {
            let k = position_of(self.nodes@, id);
            assert(self.nodes@[k].id < self.next_id);
        }
    }

    /// An empty tree.
    pub fn new() -> (tree: WidgetTree)
        ensures
            tree.wf(),
            tree@ == Map::<u64, NodeView>::empty(),
    {
        let tree = WidgetTree { nodes: Vec::new(), next_id: 0 };
        assert(tree@ =~= Map::<u64, NodeView>::empty());
        tree
    }

    fn position(&self, id: u64) -> (found: Option<usize>)
        requires
            self.wf(),
        ensures
            match found {
                Some(i) => i < self.nodes@.len() && self.nodes@[i as int].id == id,
                None => !self@.dom().contains(id),
            },
    {
        let mut i: usize = 0;
        while i < self.nodes.len()
            invariant
                i <= self.nodes@.len(),
                forall|j: int| 0 <= j < i ==> #[trigger] self.nodes@[j].id != id,
            decreases self.nodes@.len() - i,
        {
            if self.nodes[i].id == id {
                return Some(i);
            }
            i = i + 1;
        }
        None
    }

    /// Whether the tree holds the element `id`.
    pub fn contains(&self, id: WidgetId) -> (held: bool)
        requires
            self.wf(),
        ensures
            held == self@.dom().contains(id.0),
    {
        match self.position(id.0) {
            Some(i) => {
                proof {
                    lemma_nodes_position(self.nodes@, i as int);
                }
                true
            },
            None => false,
        }
    }

    /// The `index`th child of the element `id`, if the element is held and has one.
    pub fn get_child(&self, id: WidgetId, index: usize) -> (child: Option<WidgetId>)
        requires
            self.wf(),
        ensures
            child == (if self@.dom().contains(id.0) && index < self@[id.0].1.len() {
                Some(WidgetId(self@[id.0].1[index as int]))
            } else {
                None
            }),
    {
        match self.position(id.0) {
            Some(i) => {
                proof {
                    lemma_nodes_position(self.nodes@, i as int);
                }
                if index < self.nodes[i].children.len() {
                    Some(WidgetId(self.nodes[i].children[index]))
                } else {
                    None
                }
            },
            None => None,
        }
    }

    /// Adds an element for `widget` as the last child of `parent`, or parentless, under the
    /// next id.
    pub fn add(&mut self, parent: Option<WidgetId>, widget: WidgetRefId) -> (id: WidgetId)
        requires
            old(self).wf(),
            old(self).next_id() < u64::MAX,
            parent_held(old(self)@, parent),
            forall|e: u64| #[trigger] old(self)@.dom().contains(e) ==> old(self)@[e].2 != widget.0,
        ensures
            final(self).wf(),
            id.0 == old(self).next_id(),
            !old(self)@.dom().contains(id.0),
            final(self).next_id() == old(self).next_id() + 1,
            final(self)@ == added(old(self)@, raw_parent(parent), widget.0, id.0),
    {
        let id = self.next_id;
        let ghost old_view = self@;
        let ghost old_nodes = self.nodes@;
        proof {
            if old_view.dom().contains(id) {
                let k = position_of(old_nodes, id);
                assert(old_nodes[k].id < id);
            }
        }
        let raw = match parent {
            Some(p) => Some(p.0),
            None => None,
        };
        let ghost mut parent_pos: int = -1;
        match parent {
            Some(p) => {
                match self.position(p.0) {
                    Some(pos) => {
                        proof {
                            parent_pos = pos as int;
                            lemma_nodes_position(self.nodes@, pos as int);
                        }
                        self.nodes[pos].children.push(id);
                    },
                    None => {},
                }
            },
            None => {},
        }
        self.nodes.push(TreeNode { id, parent: raw, children: Vec::new(), widget: widget.0 });
        self.next_id = id + 1;
        proof {
            let nodes = self.nodes@;
            assert forall|i: int, j: int| 0 <= i < j < nodes.len() implies #[trigger] nodes[i].id
                != #[trigger] nodes[j].id by {
                if j == old_nodes.len() {
                    assert(old_nodes[i].id < id);
                } else {
                    assert(nodes[i].id == old_nodes[i].id && nodes[j].id == old_nodes[j].id);
                }
            }
            assert forall|i: int, j: int| 0 <= i < j < nodes.len() implies #[trigger] nodes[i].widget
                != #[trigger] nodes[j].widget by {
                if j == old_nodes.len() {
                    lemma_nodes_position(old_nodes, i);
                    assert(old_view[old_nodes[i].id].2 == old_nodes[i].widget);
                } else {
                    assert(nodes[i].widget == old_nodes[i].widget && nodes[j].widget == old_nodes[j].widget);
                }
            }
            assert forall|i: int| 0 <= i < nodes.len() implies #[trigger] nodes[i].id < self.next_id by {
                if i < old_nodes.len() {
                    assert(nodes[i].id == old_nodes[i].id);
                }
            }
            let want = added(old_view, raw, widget.0, id);
            assert forall|x: u64| #[trigger] self@.dom().contains(x) <==> want.dom().contains(x) by {
                if self@.dom().contains(x) {
                    let k = position_of(nodes, x);
                    if k < old_nodes.len() {
                        assert(old_nodes[k].id == x);
                        assert(holds_id(old_nodes, x));
                    }
                }
                if old_view.dom().contains(x) {
                    let k = position_of(old_nodes, x);
                    assert(nodes[k].id == x);
                    assert(holds_id(nodes, x));
                }
                if x == id {
                    assert(nodes[old_nodes.len() as int].id == id);
                    assert(holds_id(nodes, x));
                }
            }
            assert forall|x: u64| #[trigger] self@.dom().contains(x) implies self@[x] == want[x] by {
                let k = position_of(nodes, x);
                lemma_nodes_position(nodes, k);
                if k < old_nodes.len() {
                    assert(old_nodes[k].id == x);
                    lemma_nodes_position(old_nodes, k);
                }
            }
            assert(self@ =~= want);
        }
        WidgetId(id)
    }

    /// Moves the element `id` to the end of the children of `parent`, or makes it
    /// parentless, returning whether its parent changed.
    pub fn reparent(&mut self, parent: Option<WidgetId>, id: WidgetId) -> (changed: bool)
        requires
            old(self).wf(),
            old(self)@.dom().contains(id.0),
            parent_held(old(self)@, parent),
        ensures
            final(self).wf(),
            final(self).next_id() == old(self).next_id(),
            (final(self)@, changed) == reparented(old(self)@, raw_parent(parent), id.0),
    {
        let raw = match parent {
            Some(p) => Some(p.0),
            None => None,
        };
        let pos = match self.position(id.0) {
            Some(pos) => pos,
            None => {
                return false;
            },
        };
        proof {
            lemma_nodes_position(self.nodes@, pos as int);
        }
        let old_parent = self.nodes[pos].parent;
        if old_parent == raw {
            return false;
        }
        let ghost n0 = self.nodes@;
        let ghost v0 = self@;
        self.nodes[pos].parent = raw;
        proof {
            lemma_nodes_update(n0, pos as int, self.nodes@[pos as int]);
        }
        let ghost moved = self@;
        assert(moved == v0.insert(id.0, (raw, v0[id.0].1, v0[id.0].2)));
        match old_parent {
            Some(q) => {
                match self.position(q) {
                    Some(qp) => {
                        proof {
                            lemma_nodes_position(self.nodes@, qp as int);
                        }
                        let ghost kids = self.nodes@[qp as int].children@;
                        let mut k: usize = 0;
                        let mut found = false;
                        while k < self.nodes[qp].children.len()
                            invariant
                                qp < self.nodes@.len(),
                                self.nodes@ == old(self).nodes@.update(pos as int, self.nodes@[pos as int]),
                                kids == self.nodes@[qp as int].children@,
                                k <= kids.len(),
                                forall|j: int| 0 <= j < k ==> kids[j] != id.0,
                                found ==> k < kids.len() && kids[k as int] == id.0,
                            ensures
                                forall|j: int| 0 <= j < k ==> kids[j] != id.0,
                                found ==> k < kids.len() && kids[k as int] == id.0,
                                !found ==> k == kids.len(),
                                self.nodes@ == old(self).nodes@.update(pos as int, self.nodes@[pos as int]),
                            decreases kids.len() - k + (if found { 0int } else { 1int }),
                        {
                            if self.nodes[qp].children[k] == id.0 {
                                found = true;
                                break;
                            }
                            k = k + 1;
                        }
                        proof {
                            kids.index_of_first_ensures(id.0);
                        }
                        if found {
                            let ghost n1 = self.nodes@;
                            self.nodes[qp].children.remove(k);
                            proof {
                                match kids.index_of_first(id.0) {
                                    Some(f) => {
                                        if f < k {
                                            assert(kids[f] != id.0);
                                        } else if f > k {
                                            assert(kids[k as int] == id.0);
                                        }
                                    },
                                    None => {
                                        assert(kids.contains(id.0));
                                    },
                                }
                                lemma_nodes_update(n1, qp as int, self.nodes@[qp as int]);
                            }
                        } else {
                            proof {
                                if kids.contains(id.0) {
                                    let j = choose|j: int| 0 <= j < kids.len() && kids[j] == id.0;
                                    assert(kids[j] != id.0);
                                }
                            }
                        }
                    },
                    None => {},
                }
            },
            None => {},
        }
        let ghost detached = self@;
        match raw {
            Some(p) => {
                match self.position(p) {
                    Some(pp) => {
                        let ghost n2 = self.nodes@;
                        proof {
                            lemma_nodes_position(self.nodes@, pp as int);
                        }
                        self.nodes[pp].children.push(id.0);
                        proof {
                            lemma_nodes_update(n2, pp as int, self.nodes@[pp as int]);
                        }
                    },
                    None => {},
                }
            },
            None => {},
        }
        proof {
            assert(self@ =~= reparented(v0, raw, id.0).0);
        }
        true
    }

    /// Whether another element can still be added.
    pub fn has_room(&self) -> (room: bool)
        ensures
            room == (self.next_id() < u64::MAX),
    {
        self.next_id < u64::MAX
    }

    /// How many elements the tree holds.
    pub closed spec fn size(&self) -> nat {
        self.nodes@.len()
    }

    /// The children of the element `id` in order; none where it is not held.
    pub fn children_of(&self, id: WidgetId) -> (children: Vec<WidgetId>)
        requires
            self.wf(),
        ensures
            raw_ids(children@) == (if self@.dom().contains(id.0) {
                self@[id.0].1
            } else {
                Seq::<u64>::empty()
            }),
    {
        let mut out: Vec<WidgetId> = Vec::new();
        match self.position(id.0) {
            Some(i) => {
                proof {
                    lemma_nodes_position(self.nodes@, i as int);
                }
                let kids = &self.nodes[i].children;
                let mut k: usize = 0;
                while k < kids.len()
                    invariant
                        k <= kids@.len(),
                        out@.len() == k,
                        raw_ids(out@) == kids@.take(k as int),
                    decreases kids@.len() - k,
                {
                    let ghost before = out@;
                    out.push(WidgetId(kids[k]));
                    proof {
                        assert(out@ == before.push(WidgetId(kids@[k as int])));
                        assert(raw_ids(before) == kids@.take(k as int));
                        assert forall|j: int| 0 <= j < k + 1 implies #[trigger] raw_ids(out@)[j]
                            == kids@.take(k + 1 as int)[j] by {
                            if j < k {
                                assert(out@[j] == before[j]);
                                assert(raw_ids(before)[j] == kids@.take(k as int)[j]);
                            }
                        }
                        assert(raw_ids(out@) =~= kids@.take(k + 1 as int));
                    }
                    k = k + 1;
                }
                proof {
                    assert(kids@.take(kids@.len() as int) =~= kids@);
                }
            },
            None => {
                proof {
                    assert(raw_ids(out@) =~= Seq::<u64>::empty());
                }
            },
        }
        out
    }

    /// Removes the element `id`, unlinking it from its parent, and returns whether it was
    /// held.
    pub fn remove(&mut self, id: WidgetId) -> (held: bool)
        requires
            old(self).wf(),
        ensures
            final(self).wf(),
            final(self).next_id() == old(self).next_id(),
            held == old(self)@.dom().contains(id.0),
            held ==> final(self)@ == removed(old(self)@, id.0) && final(self).size() + 1 == old(self).size(),
            !held ==> final(self)@ == old(self)@ && final(self).size() == old(self).size(),
    {
        let pos = match self.position(id.0) {
            Some(pos) => pos,
            None => {
                return false;
            },
        };
        let ghost v0 = self@;
        let ghost n0 = self.nodes@;
        proof {
            lemma_nodes_position(n0, pos as int);
            lemma_nodes_remove(n0, pos as int);
        }
        let node = self.nodes.remove(pos);
        proof {
            assert(self.nodes@ == n0.remove(pos as int));
            assert forall|i: int| 0 <= i < self.nodes@.len() implies #[trigger] self.nodes@[i].id < self.next_id by {
                let i1 = if i < pos { i } else { i + 1 };
                assert(self.nodes@[i] == n0[i1]);
            }
        }
        match node.parent {
            Some(q) => {
                match self.position(q) {
                    Some(qp) => {
                        proof {
                            lemma_nodes_position(self.nodes@, qp as int);
                        }
                        let ghost kids = self.nodes@[qp as int].children@;
                        let ghost n1 = self.nodes@;
                        let mut k: usize = 0;
                        let mut found = false;
                        while k < self.nodes[qp].children.len()
                            invariant
                                qp < self.nodes@.len(),
                                self.nodes@ == n1,
                                kids == self.nodes@[qp as int].children@,
                                k <= kids.len(),
                                forall|j: int| 0 <= j < k ==> kids[j] != id.0,
                                found ==> k < kids.len() && kids[k as int] == id.0,
                            ensures
                                self.nodes@ == n1,
                                forall|j: int| 0 <= j < k ==> kids[j] != id.0,
                                found ==> k < kids.len() && kids[k as int] == id.0,
                                !found ==> k == kids.len(),
                            decreases kids.len() - k + (if found { 0int } else { 1int }),
                        {
                            if self.nodes[qp].children[k] == id.0 {
                                found = true;
                                break;
                            }
                            k = k + 1;
                        }
                        proof {
                            kids.index_of_first_ensures(id.0);
                        }
                        if found {
                            self.nodes[qp].children.remove(k);
                            proof {
                                match kids.index_of_first(id.0) {
                                    Some(f) => {
                                        if f < k {
                                            assert(kids[f] != id.0);
                                        } else if f > k {
                                            assert(kids[k as int] == id.0);
                                        }
                                    },
                                    None => {
                                        assert(kids.contains(id.0));
                                    },
                                }
                                lemma_nodes_update(n1, qp as int, self.nodes@[qp as int]);
                            }
                        } else {
                            proof {
                                if kids.contains(id.0) {
                                    let j = choose|j: int| 0 <= j < kids.len() && kids[j] == id.0;
                                    assert(kids[j] != id.0);
                                }
                            }
                        }
                    },
                    None => {},
                }
            },
            None => {},
        }
        proof {
            assert(self@ =~= removed(v0, id.0));
        }
        true
    }

    /// An element without a parent, if the tree holds one: the first such one added.
    pub fn root(&self) -> (root: Option<WidgetId>)
        requires
            self.wf(),
        ensures
            match root {
                Some(r) => self@.dom().contains(r.0) && self@[r.0].0 is None,
                None => forall|id: u64| #[trigger] self@.dom().contains(id) ==> self@[id].0 is Some,
            },
    {
        let mut i: usize = 0;
        while i < self.nodes.len()
            invariant
                self.wf(),
                i <= self.nodes@.len(),
                forall|j: int| 0 <= j < i ==> (#[trigger] self.nodes@[j].parent is Some),
            decreases self.nodes@.len() - i,
        {
            if self.nodes[i].parent.is_none() {
                proof {
                    lemma_nodes_position(self.nodes@, i as int);
                }
                return Some(WidgetId(self.nodes[i].id));
            }
            i = i + 1;
        }
        proof {
            assert forall|id: u64| #[trigger] self@.dom().contains(id) implies self@[id].0 is Some by {
                let k = position_of(self.nodes@, id);
                lemma_nodes_position(self.nodes@, k);
            }
        }
        None
    }

    /// A spawn event for every element held, with its parent, in the order they were added.
    pub fn spawn_events(&self) -> (events: Vec<crate::manager::spawn::ElementEvent>)
        requires
            self.wf(),
        ensures
            lists_tree(self@, events@),
    {
        let mut out: Vec<crate::manager::spawn::ElementEvent> = Vec::new();
        let mut i: usize = 0;
        while i < self.nodes.len()
            invariant
                self.wf(),
                i <= self.nodes@.len(),
                out@.len() == i,
                forall|k: int| 0 <= k < i ==> #[trigger] out@[k] == (crate::manager::spawn::ElementEvent::Spawned {
                    parent_id: as_widget(self.nodes@[k].parent),
                    element_id: WidgetId(self.nodes@[k].id),
                }),
            decreases self.nodes@.len() - i,
        {
            let parent = match self.nodes[i].parent {
                Some(p) => Some(WidgetId(p)),
                None => None,
            };
            out.push(crate::manager::spawn::ElementEvent::Spawned { parent_id: parent, element_id: WidgetId(self.nodes[i].id) });
            i = i + 1;
        }
        proof {
            assert forall|k: int| 0 <= k < out@.len() implies match #[trigger] out@[k] {
                crate::manager::spawn::ElementEvent::Spawned { parent_id, element_id } => self@.dom().contains(element_id.0)
                    && parent_id == as_widget(self@[element_id.0].0),
                _ => false,
            } by {
                lemma_nodes_position(self.nodes@, k);
            }
            assert forall|id: u64| #[trigger] self@.dom().contains(id) implies exists|k: int|
                0 <= k < out@.len() && spawn_of(out@[k]) == Some(id) by {
                let k = position_of(self.nodes@, id);
                assert(spawn_of(out@[k]) == Some(id));
            }
            assert forall|a: int, b: int| 0 <= a < b < out@.len() implies spawn_of(#[trigger] out@[a]) != spawn_of(
                #[trigger] out@[b],
            ) by {
                assert(self.nodes@[a].id != self.nodes@[b].id);
            }
        }
        out
    }

    /// How many elements the tree holds.
    pub fn len(&self) -> (count: usize)
        ensures
            count == self.size(),
    {
        self.nodes.len()
    }

    /// The element created from the widget `widget`, if one is held.
    pub fn find_widget(&self, widget: WidgetRefId) -> (found: Option<WidgetId>)
        requires
            self.wf(),
        ensures
            match found {
                Some(id) => self@.dom().contains(id.0) && self@[id.0].2 == widget.0 && forall|e: u64|
                    #[trigger] self@.dom().contains(e) && self@[e].2 == widget.0 ==> e == id.0,
                None => forall|id: u64| #[trigger] self@.dom().contains(id) ==> self@[id].2 != widget.0,
            },
    {
        let mut i: usize = 0;
        while i < self.nodes.len()
            invariant
                self.wf(),
                i <= self.nodes@.len(),
                forall|j: int| 0 <= j < i ==> #[trigger] self.nodes@[j].widget != widget.0,
            decreases self.nodes@.len() - i,
        {
            if self.nodes[i].widget == widget.0 {
                proof {
                    lemma_nodes_position(self.nodes@, i as int);
                    assert forall|e: u64| #[trigger] self@.dom().contains(e) && self@[e].2 == widget.0
                        implies e == self.nodes@[i as int].id by {
                        let k = position_of(self.nodes@, e);
                        if k != i {
                            if k < i {
                                assert(self.nodes@[k].widget != self.nodes@[i as int].widget);
                            } else {
                                assert(self.nodes@[i as int].widget != self.nodes@[k].widget);
                            }
                        }
                    }
                }
                return Some(WidgetId(self.nodes[i].id));
            }
            i = i + 1;
        }
        proof {
            assert forall|id: u64| #[trigger] self@.dom().contains(id) implies self@[id].2 != widget.0 by {
                let k = position_of(self.nodes@, id);
                assert(self.nodes@[k].widget != widget.0);
            }
        }
        None
    }
}

} // verus!
