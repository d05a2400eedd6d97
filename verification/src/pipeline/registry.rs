use vstd::prelude::*;

verus! {

/// The depth-and-flags record a pipeline keeps for each registered boundary. Each pipeline
/// uses the fields of its own channels and leaves the others at their defaults.
#[derive(Clone, Copy, PartialEq, Eq, Debug)]
pub struct BoundaryCell {
    /// The depth in the boundary nesting; a flush re-enters marked boundaries rootmost-first.
    pub depth: usize,
    /// The repaint boundary enclosing this one (layout pipelines), marked when this boundary
    /// re-lays so the re-laid subtree repaints.
    pub paint: u64,
    /// Whether constraints were recorded for this boundary, so it can be re-laid on its own.
    pub constrained: bool,
    /// Whether the boundary awaits re-layout.
    pub needs_layout: bool,
    /// Whether the boundary is linked into the layout dirty list.
    pub layout_linked: bool,
    /// Whether the boundary is queued for repaint.
    pub paint_queued: bool,
    /// Whether the boundary is queued for a compositing-bits recompute.
    pub bits_queued: bool,
    /// The command count the boundary's last repaint recorded, sizing the next one.
    pub capacity_commands: usize,
    /// The brush count the boundary's last repaint recorded.
    pub capacity_brushes: usize,
    /// The stroke count the boundary's last repaint recorded.
    pub capacity_strokes: usize,
}

/// The bit position above which a slot map key stores its version.
pub open spec fn version_unit() -> int {
    0x1_0000_0000
}

/// Whether `id` has the shape of a slot map key turned into an integer: its version half is
/// odd, as the version of every key a slot map hands out or names as null is.
pub open spec fn key_shaped(id: u64) -> bool {
    (id as int / version_unit()) % 2 == 1
}

/// The integer form of the null key: index `u32::MAX`, version 1.
pub open spec fn null_key_id() -> u64 {
    0x1_FFFF_FFFF
}

/// Whether a map of cells has the shape every slot map's contents have: finitely many keys,
/// each key-shaped, none of them the null key.
pub open spec fn cells_wf(cells: Map<u64, BoundaryCell>) -> bool {
    &&& cells.dom().finite()
    &&& forall|id: u64| #[trigger] cells.dom().contains(id) ==> key_shaped(id) && id != null_key_id()
}

/// The largest number of boundaries a registry holds; inserting past it panics.
pub open spec fn registry_capacity() -> nat {
    0xFFFF_FFFE
}

/// The registered boundaries, keyed by the integer form of their slot map keys.
#[verifier::external_body]
pub struct BoundaryRegistry {
    map: slotmap::SlotMap<slotmap::DefaultKey, BoundaryCell>,
}

/// What a registry holds: each live key's integer form and its cell.
pub uninterp spec fn registry_cells(registry: BoundaryRegistry) -> Map<u64, BoundaryCell>;

/// The integer form of the null key, which no slot map ever holds.
///
/// Calls `Key::null` and `KeyData::as_ffi`: the null key has index `u32::MAX` and version 1,
/// so its integer form is `(1 << 32) | u32::MAX`.
#[verifier::external_body]
pub(crate) fn null_id() -> (id: u64)
    ensures
        id == null_key_id(),
{
    slotmap::Key::data(&<slotmap::DefaultKey as slotmap::Key>::null()).as_ffi()
}

impl BoundaryRegistry {
    /// An empty registry. Calls `SlotMap::with_key`, which creates an empty map.
    #[verifier::external_body]
    pub(crate) fn new() -> (created: BoundaryRegistry)
        ensures
            registry_cells(created) =~= Map::empty(),
    {
        BoundaryRegistry { map: slotmap::SlotMap::with_key() }
    }

    /// Calls `SlotMap::insert`, which stores `cell` under a fresh key and returns it. The key
    /// is new to the map and version-odd; its index is below `u32::MAX`, so it is never the
    /// null key. The map panics when it holds `u32::MAX - 1` values, which `requires` rules out.
    #[verifier::external_body]
    pub(crate) fn insert(&mut self, cell: BoundaryCell) -> (id: u64)
        requires
            cells_wf(registry_cells(*old(self))),
            registry_cells(*old(self)).dom().len() < registry_capacity(),
        ensures
            !registry_cells(*old(self)).dom().contains(id),
            key_shaped(id),
            id != null_key_id(),
            registry_cells(*final(self)) == registry_cells(*old(self)).insert(id, cell),
    {
        slotmap::Key::data(&self.map.insert(cell)).as_ffi()
    }

    /// Calls `SlotMap::get`, which returns the value stored under the key, if any. A
    /// key-shaped `id` converts back to the very key it came from, so this reads the cell
    /// stored under `id`.
    #[verifier::external_body]
    pub(crate) fn get(&self, id: u64) -> (cell: Option<BoundaryCell>)
        requires
            key_shaped(id),
        ensures
            cell == (if registry_cells(*self).dom().contains(id) {
                Some(registry_cells(*self)[id])
            } else {
                None
            }),
    {
        self.map.get(slotmap::DefaultKey::from(slotmap::KeyData::from_ffi(id))).copied()
    }

    /// Calls `SlotMap::get_mut` and overwrites the value found, if any, returning whether
    /// there was one.
    #[verifier::external_body]
    pub(crate) fn set(&mut self, id: u64, cell: BoundaryCell) -> (found: bool)
        requires
            key_shaped(id),
        ensures
            found == registry_cells(*old(self)).dom().contains(id),
            registry_cells(*final(self)) == (if found {
                registry_cells(*old(self)).insert(id, cell)
            } else {
                registry_cells(*old(self))
            }),
    {
        match self.map.get_mut(slotmap::DefaultKey::from(slotmap::KeyData::from_ffi(id))) {
            Some(slot) => {
                *slot = cell;
                true
            },
            None => false,
        }
    }

    /// Calls `SlotMap::remove`, which takes the value stored under the key out of the map.
    #[verifier::external_body]
    pub(crate) fn remove(&mut self, id: u64) -> (cell: Option<BoundaryCell>)
        requires
            key_shaped(id),
        ensures
            cell == (if registry_cells(*old(self)).dom().contains(id) {
                Some(registry_cells(*old(self))[id])
            } else {
                None
            }),
            registry_cells(*final(self)) == registry_cells(*old(self)).remove(id),
    {
        self.map.remove(slotmap::DefaultKey::from(slotmap::KeyData::from_ffi(id)))
    }
}

/// A registry's contents keep the shape of a slot map's through every operation.
pub proof fn lemma_cells_wf_insert(cells: Map<u64, BoundaryCell>, id: u64, cell: BoundaryCell)
    requires
        cells_wf(cells),
        key_shaped(id),
        id != null_key_id(),
    ensures
        cells_wf(cells.insert(id, cell)),
{
}

/// Removing a key keeps a registry's contents in the shape of a slot map's.
pub proof fn lemma_cells_wf_remove(cells: Map<u64, BoundaryCell>, id: u64)
    requires
        cells_wf(cells),
    ensures
        cells_wf(cells.remove(id)),
{
}

/// The null key has the shape of a key.
pub proof fn lemma_null_key_shaped()
    ensures
        key_shaped(null_key_id()),
{
    assert(0x1_FFFF_FFFFu64 as int / 0x1_0000_0000 == 1);
}

} // verus!
