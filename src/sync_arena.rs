use std::collections::HashMap;
use vstd::prelude::*;

use crate::diffable::Diff;
use crate::ids::fresh_key;
use crate::patch::{
    distinct_keys, altered_between, keep_owned, keep_sendable, keys_distinct, lemma_diff_result, lemma_patch_step,
    lemma_patch_after_removal, lemma_round_trip, pairs_map, patch_model, removed_between, sendable,
};

verus! {

/// Slots are numbered below this bound, so that `u32::MAX` never names a slot.
pub const MAX_SLOTS: usize = 0xffff_ffff;

/// The `next_free` mark of a slot that was taken out by a removing walk and
/// is not yet on the free list.
pub const DETACHED: u32 = 0xffff_ffff;

pub const DEFAULT_CAPACITY: usize = 4;

/// A slot of the arena: free, linked into the free list, or holding a value.
#[derive(Clone, Debug, PartialEq)]
pub enum Entry<T> {
    Free { next_free: Option<u32> },
    Occupied { generation: u32, sync_id: u64, value: T },
}

pub open spec fn gen_of<T>(e: Entry<T>) -> u32 {
    match e {
        Entry::Occupied { generation, .. } => generation,
        Entry::Free { .. } => 0,
    }
}

pub open spec fn id_of<T>(e: Entry<T>) -> u64 {
    match e {
        Entry::Occupied { sync_id, .. } => sync_id,
        Entry::Free { .. } => 0,
    }
}

pub open spec fn value_of<T>(e: Entry<T>) -> T {
    match e {
        Entry::Occupied { value, .. } => value,
        Entry::Free { .. } => arbitrary(),
    }
}

/// The generation after one more removal: one more, until the counter is full.
pub open spec fn bumped(g: u32) -> u32 {
    if g < u32::MAX {
        (g + 1) as u32
    } else {
        g
    }
}

/// Generation monotonicity: the generation after a removal is never lower,
/// and it is higher whenever the counter is below its ceiling, where it stays.
pub proof fn lemma_generation_rises(g: u32)
    ensures
        bumped(g) >= g,
        g < u32::MAX ==> bumped(g) == g + 1,
        g == u32::MAX ==> bumped(g) == g,
{
}

/// The generation after `n` more removals.
pub open spec fn bumped_by(g: u32, n: nat) -> u32 {
    if g + n <= u32::MAX {
        (g + n) as u32
    } else {
        u32::MAX
    }
}

/// The link that the `k`-th member of a free chain must hold.
pub open spec fn chain_next(chain: Seq<u32>, k: int) -> Option<u32> {
    if k + 1 < chain.len() {
        Some(chain[k + 1])
    } else {
        None
    }
}

/// `fc` lists, from `head` on, the slots of a free list without repeats.
pub open spec fn chain_valid<T>(items: Seq<Entry<T>>, fc: Seq<u32>, head: Option<u32>) -> bool {
    &&& fc.no_duplicates()
    &&& forall|k: int| 0 <= k < fc.len() ==> (#[trigger] fc[k] as int) < items.len()
    &&& forall|k: int|
        0 <= k < fc.len() ==> items[#[trigger] fc[k] as int] == (Entry::<T>::Free {
            next_free: chain_next(fc, k),
        })
    &&& head == (if fc.len() > 0 {
        Some(fc[0])
    } else {
        None::<u32>
    })
}

/// `m` maps the sync id of each occupied slot, and nothing else, to that
/// slot and its generation.
pub open spec fn map_valid<T>(items: Seq<Entry<T>>, m: Map<u64, (u32, u32)>) -> bool {
    &&& forall|id: u64| #[trigger]
        m.contains_key(id) ==> {
            &&& (m[id].0 as int) < items.len()
            &&& items[m[id].0 as int] is Occupied
            &&& gen_of(items[m[id].0 as int]) == m[id].1
            &&& id_of(items[m[id].0 as int]) == id
        }
    &&& forall|i: int|
        0 <= i < items.len() && (#[trigger] items[i]) is Occupied ==> {
            &&& m.contains_key(id_of(items[i]))
            &&& m[id_of(items[i])] == (i as u32, gen_of(items[i]))
        }
}

/// Appending free slots that chain to each other and then to the old head
/// gives a valid chain that starts at the first of them.
#[verifier::rlimit(40)]
proof fn lemma_chain_extend<T>(
    old_items: Seq<Entry<T>>,
    items: Seq<Entry<T>>,
    old_chain: Seq<u32>,
    old_head: Option<u32>,
    add: int,
)
    requires
        chain_valid(old_items, old_chain, old_head),
        add > 0,
        items.len() == old_items.len() + add,
        items.len() <= MAX_SLOTS,
        forall|j: int| 0 <= j < old_items.len() ==> items[j] == old_items[j],
        forall|j: int|
            old_items.len() <= j < items.len() ==> #[trigger] items[j] == (Entry::<T>::Free {
                next_free: if j == items.len() - 1 {
                    old_head
                } else {
                    Some((j + 1) as u32)
                },
            }),
    ensures
        chain_valid(
            items,
            Seq::new(add as nat, |k: int| (old_items.len() + k) as u32) + old_chain,
            Some(old_items.len() as u32),
        ),
{
    let start = old_items.len();
    let fresh = Seq::new(add as nat, |k: int| (start + k) as u32);
    let fc = fresh + old_chain;
    assert forall|k: int| 0 <= k < fc.len() implies (#[trigger] fc[k] as int) < items.len() by {
        if k >= add {
            assert(fc[k] == old_chain[k - add]);
        }
    }
    assert forall|k: int| 0 <= k < fc.len() implies items[#[trigger] fc[k] as int] == (Entry::<
        T,
    >::Free { next_free: chain_next(fc, k) }) by {
        if k < add {
            assert(fc[k] == (start + k) as u32);
            if k + 1 < add {
                assert(fc[k + 1] == (start + k + 1) as u32);
            } else if old_chain.len() > 0 {
                assert(fc[k + 1] == old_chain[0]);
            }
        } else {
            assert(fc[k] == old_chain[k - add]);
            if k + 1 < fc.len() {
                assert(fc[k + 1] == old_chain[k + 1 - add]);
            }
        }
    }
    assert forall|a: int, b: int|
        0 <= a < fc.len() && 0 <= b < fc.len() && a != b implies fc[a] != fc[b] by {
        if a >= add && b >= add {
            assert(old_chain[a - add] != old_chain[b - add]);
        } else if a >= add {
            assert(fc[a] == old_chain[a - add]);
        } else if b >= add {
            assert(fc[b] == old_chain[b - add]);
        }
    }
    assert(fc[0] == start as u32);
}

/// Appending free slots keeps the sync-id map valid.
proof fn lemma_map_extend<T>(old_items: Seq<Entry<T>>, items: Seq<Entry<T>>, m: Map<u64, (u32, u32)>)
    requires
        map_valid(old_items, m),
        items.len() >= old_items.len(),
        forall|j: int| 0 <= j < old_items.len() ==> items[j] == old_items[j],
        forall|j: int| old_items.len() <= j < items.len() ==> (#[trigger] items[j]) is Free,
    ensures
        map_valid(items, m),
{
    assert forall|i: int| 0 <= i < items.len() && (#[trigger] items[i]) is Occupied implies {
        &&& m.contains_key(id_of(items[i]))
        &&& m[id_of(items[i])] == (i as u32, gen_of(items[i]))
    } by {
        assert(items[i] == old_items[i]);
    }
}

/// `items` with the value of the occupied slot `idx` replaced by `v`.
pub open spec fn with_value<T>(items: Seq<Entry<T>>, idx: int, v: T) -> Seq<Entry<T>> {
    items.update(idx, Entry::Occupied { generation: gen_of(items[idx]), sync_id: id_of(items[idx]), value: v })
}

/// Changing the value in an occupied slot keeps the chain and the map valid.
proof fn lemma_value_update<T>(
    items: Seq<Entry<T>>,
    fc: Seq<u32>,
    head: Option<u32>,
    m: Map<u64, (u32, u32)>,
    idx: int,
    v: T,
)
    requires
        chain_valid(items, fc, head),
        map_valid(items, m),
        0 <= idx < items.len(),
        items[idx] is Occupied,
    ensures
        chain_valid(with_value(items, idx, v), fc, head),
        map_valid(with_value(items, idx, v), m),
{
    let e = Entry::Occupied { generation: gen_of(items[idx]), sync_id: id_of(items[idx]), value: v };
    let items2 = items.update(idx, e);
    assert forall|k: int| 0 <= k < fc.len() implies items2[#[trigger] fc[k] as int] == (Entry::<
        T,
    >::Free { next_free: chain_next(fc, k) }) by {
        assert(items[fc[k] as int] is Free);
    }
    assert forall|i: int| 0 <= i < items2.len() && (#[trigger] items2[i]) is Occupied implies {
        &&& m.contains_key(id_of(items2[i]))
        &&& m[id_of(items2[i])] == (i as u32, gen_of(items2[i]))
    } by {
        assert(items[i] is Occupied);
    }
}

/// The change from one arena to another: objects whose value changed or that
/// are new, each with the delta that makes its new value (from the neutral
/// value, for a new one), and the sync ids of objects that are gone.
pub struct SyncArenaDiff<T: Diff> {
    pub altered: Vec<(u64, T::Repr)>,
    pub removed: Vec<u64>,
}

impl<T: Diff> SyncArenaDiff<T> {
    /// Each object occurs at most once among the altered ones.
    pub open spec fn wf(&self) -> bool {
        keys_distinct(self.altered@)
    }

    pub open spec fn altered_map(&self) -> Map<u64, T::Repr> {
        pairs_map(self.altered@)
    }

    pub open spec fn removed_set(&self) -> Set<u64> {
        self.removed@.to_set()
    }

    /// Nothing changed.
    pub open spec fn is_empty_delta(&self) -> bool {
        self.altered@.len() == 0 && self.removed@.len() == 0
    }

    /// Whether the delta lists no change.
    pub fn is_empty(&self) -> (r: bool)
        ensures
            r == self.is_empty_delta(),
    {
        self.altered.len() == 0 && self.removed.len() == 0
    }
}

/// Why an arena could not be built from (sync id, value) pairs.
#[derive(Clone, Copy, Debug, PartialEq, Eq, Structural)]
pub enum BuildError {
    /// More pairs than an arena has slots.
    TooMany,
    /// A sync id occurs twice.
    DuplicateId,
}

/// Why a received delta was not applied.
#[derive(Clone, Copy, Debug, PartialEq, Eq, Structural)]
pub enum ApplyError {
    /// An object occurs twice among the altered ones.
    AlteredTwice,
    /// The arena could not grow to take the new objects.
    NoRoom,
}

/// A handle to an object of a `SyncArena`: its slot, the generation the slot
/// had when the object was put there, and the object's sync id.
///
/// A handle that came over the network knows only its sync id (`synced` is
/// false); its slot and generation are found on its first lookup.
#[derive(Clone, Copy, Debug, PartialEq, Eq, Structural, PartialOrd, Ord, Hash)]
pub struct Index {
    index: u32,
    generation: u32,
    synced: bool,
    sync_id: u64,
}

/// The resolved handle with these parts.
pub closed spec fn raw_handle(index: u32, generation: u32, sync_id: u64) -> Index {
    Index { index, generation, synced: true, sync_id }
}

impl Index {
    pub closed spec fn spec_index(self) -> u32 {
        self.index
    }

    pub closed spec fn spec_generation(self) -> u32 {
        self.generation
    }

    pub closed spec fn spec_synced(self) -> bool {
        self.synced
    }

    pub closed spec fn spec_sync_id(self) -> u64 {
        self.sync_id
    }

    /// A handle with a known slot and generation.
    pub fn from_raw_parts(index: u32, generation: u32, sync_id: u64) -> (r: Index)
        ensures
            r.spec_index() == index,
            r.spec_generation() == generation,
            r.spec_sync_id() == sync_id,
            r.spec_synced(),
    {
        Index { index, generation, synced: true, sync_id }
    }

    /// A handle that knows only its sync id, as one received from a peer.
    pub fn from_sync_id(sync_id: u64) -> (r: Index)
        ensures
            r.spec_index() == DETACHED,
            r.spec_generation() == DETACHED,
            r.spec_sync_id() == sync_id,
            !r.spec_synced(),
    {
        Index { index: DETACHED, generation: DETACHED, synced: false, sync_id }
    }

    /// The slot and the generation.
    pub fn into_raw_parts(self) -> (r: (u32, u32))
        ensures
            r == (self.spec_index(), self.spec_generation()),
    {
        (self.index, self.generation)
    }

    pub fn sync_id(&self) -> (r: u64)
        ensures
            r == self.spec_sync_id(),
    {
        self.sync_id
    }

    pub fn is_synced(&self) -> (r: bool)
        ensures
            r == self.spec_synced(),
    {
        self.synced
    }
}

/// The change of a handle: its new sync id, if it changed.
#[derive(Debug)]
pub struct IndexDiff {
    pub sync_id: Option<u64>,
}

impl View for Index {
    type V = u64;

    /// A handle is known across processes by its sync id alone.
    open spec fn view(&self) -> u64 {
        self.spec_sync_id()
    }
}

impl Diff for Index {
    type Repr = IndexDiff;

    open spec fn patched(v: u64, d: IndexDiff) -> u64 {
        crate::diffable::replaced(v, d.sync_id)
    }

    open spec fn is_unchanged(d: IndexDiff) -> bool {
        d.sync_id is None
    }

    open spec fn neutral() -> u64 {
        DETACHED as u64
    }

    open spec fn delta(v: u64, w: u64) -> IndexDiff {
        IndexDiff {
            sync_id: if v != w {
                Some(w)
            } else {
                None
            },
        }
    }

    proof fn lemma_unchanged_is_noop(v: u64, d: IndexDiff) {
    }

    proof fn lemma_delta_round_trip(v: u64, w: u64) {
    }

    /// Only the sync id is compared: a different one implies a different
    /// slot as well.
    fn diff(&self, other: &Index) -> (r: IndexDiff) {
        if self.sync_id != other.sync_id {
            IndexDiff { sync_id: Some(other.sync_id) }
        } else {
            IndexDiff { sync_id: None }
        }
    }

    /// A new sync id leaves the handle unresolved: its slot and generation
    /// are found again on the next lookup.
    fn apply(&mut self, d: &IndexDiff)
        ensures
            d.sync_id is Some ==> !final(self).spec_synced(),
            d.sync_id is None ==> *final(self) == *old(self),
    {
        if let Some(sync_id) = d.sync_id {
            self.sync_id = sync_id;
            self.synced = false;
            self.index = DETACHED;
            self.generation = DETACHED;
        }
    }

    fn identity() -> (r: Index) {
        Index::from_raw_parts(DETACHED, DETACHED, DETACHED as u64)
    }

    fn apply_new(&self, d: &IndexDiff) -> (r: Index) {
        let mut r = *self;
        r.apply(d);
        r
    }

    fn same(&self, other: &Index) -> (r: bool) {
        self.sync_id == other.sync_id
    }
}

impl Default for Index {
    fn default() -> (r: Index)
        ensures
            r.spec_index() == DETACHED,
            r.spec_generation() == DETACHED,
            r.spec_sync_id() == DETACHED as u64,
            r.spec_synced(),
    {
        Index::from_raw_parts(DETACHED, DETACHED, DETACHED as u64)
    }
}

impl<T> Default for SyncArena<T> {
    fn default() -> (r: SyncArena<T>)
        ensures
            r.wf(),
            r@ == Map::<u64, T>::empty(),
            r.spec_capacity() == DEFAULT_CAPACITY,
            r.spec_generation() == 0,
            r.room() == MAX_SLOTS,
    {
        SyncArena::new()
    }
}

/// Values of type `T` in slots that are reused, each named by a sync id that
/// is the same in every process.
///
/// Its view maps each sync id to the value stored under it.
#[derive(Clone)]
pub struct SyncArena<T> {
    items: Vec<Entry<T>>,
    generation: u32,
    free_list_head: Option<u32>,
    len: usize,
    /// sync id -> (slot, generation)
    sync_index_map: HashMap<u64, (u32, u32)>,
    /// The slots of the free list, from its head on.
    free_chain: Ghost<Seq<u32>>,
}

impl<T> View for SyncArena<T> {
    type V = Map<u64, T>;

    closed spec fn view(&self) -> Map<u64, T> {
        self.sync_index_map@.map_values(|p: (u32, u32)| value_of(self.items@[p.0 as int]))
    }
}

impl<T: View> SyncArena<T> {
    /// Each sync id mapped to the view of its object.
    pub open spec fn model(&self) -> Map<u64, T::V> {
        self@.map_values(|v: T| v@)
    }
}

impl<T> SyncArena<T> {
    closed spec fn chain_ok(&self) -> bool {
        chain_valid(self.items@, self.free_chain@, self.free_list_head)
    }

    closed spec fn map_ok(&self) -> bool {
        map_valid(self.items@, self.sync_index_map@)
    }

    /// A well-formed arena holds finitely many objects.
    pub proof fn lemma_finite(&self)
        requires
            self.wf(),
        ensures
            self@.dom().finite(),
            self.room() >= MAX_SLOTS - self.spec_capacity() >= 0,
    {
        self.lemma_view_dom();
    }

    proof fn lemma_view_dom(&self)
        ensures
            self@.dom() == self.sync_index_map@.dom(),
    {
        assert(self@.dom() =~= self.sync_index_map@.dom());
    }

    /// The arena's invariant.
    pub closed spec fn wf(&self) -> bool {
        &&& self.items@.len() <= MAX_SLOTS
        &&& self.chain_ok()
        &&& self.map_ok()
        &&& self.len == self.sync_index_map@.len()
        &&& self.sync_index_map@.dom().finite()
        &&& forall|i: int|
            0 <= i < self.items@.len() && (#[trigger] self.items@[i]) is Occupied ==> gen_of(
                self.items@[i],
            ) <= self.generation
    }

    /// The number of slots.
    pub closed spec fn spec_capacity(&self) -> nat {
        self.items@.len()
    }

    /// The arena-wide generation counter.
    pub closed spec fn spec_generation(&self) -> u32 {
        self.generation
    }

    /// How many more objects can be inserted: free slots, and slots that can
    /// still be added.
    pub closed spec fn room(&self) -> int {
        self.free_chain@.len() + (MAX_SLOTS - self.items@.len())
    }

    /// The number of free slots that the next insertions take without growing.
    pub closed spec fn spare(&self) -> nat {
        self.free_chain@.len()
    }

    /// `self` is `before` with just the slot of `i` freed and its sync id
    /// dropped from the map.
    pub closed spec fn freed_from(&self, before: &SyncArena<T>, i: Index) -> bool {
        &&& self.items@.len() == before.items@.len()
        &&& forall|j: int|
            0 <= j < self.items@.len() && j != i.index as int ==> self.items@[j] == before.items@[j]
        &&& self.sync_index_map@ == before.sync_index_map@.remove(before.located(i).unwrap())
    }

    /// The sync id of the object that a slot and generation name, if any.
    pub closed spec fn located(&self, i: Index) -> Option<u64> {
        if (i.index as int) < self.items@.len() && self.items@[i.index as int] is Occupied
            && gen_of(self.items@[i.index as int]) == i.generation {
            Some(id_of(self.items@[i.index as int]))
        } else {
            None
        }
    }

    /// The sync id of the object that a handle resolves to, if any: by its
    /// slot when it knows one, else by its sync id.
    pub open spec fn resolve(&self, i: Index) -> Option<u64> {
        if i.spec_synced() {
            self.located(i)
        } else if self@.contains_key(i.spec_sync_id()) {
            Some(i.spec_sync_id())
        } else {
            None
        }
    }

    /// The handle with slot and generation filled in from the sync id, when
    /// it did not know them and the sync id is present.
    pub closed spec fn resolved(&self, i: Index) -> Index {
        if !i.synced && self.sync_index_map@.contains_key(i.sync_id) {
            Index {
                index: self.sync_index_map@[i.sync_id].0,
                generation: self.sync_index_map@[i.sync_id].1,
                synced: true,
                sync_id: i.sync_id,
            }
        } else {
            i
        }
    }

    /// An empty arena with room for four objects before it grows.
    pub fn new() -> (r: SyncArena<T>)
        ensures
            r.wf(),
            r@ == Map::<u64, T>::empty(),
            r.spec_capacity() == DEFAULT_CAPACITY,
            r.spec_generation() == 0,
            r.room() == MAX_SLOTS,
    {
        SyncArena::with_capacity(DEFAULT_CAPACITY)
    }

    /// An empty arena with `max(n, 1)` free slots.
    pub fn with_capacity(n: usize) -> (r: SyncArena<T>)
        requires
            n <= MAX_SLOTS,
        ensures
            r.wf(),
            r@ == Map::<u64, T>::empty(),
            r.spec_capacity() == if n == 0 {
                1
            } else {
                n
            },
            r.spec_generation() == 0,
            r.room() == MAX_SLOTS,
    {
        let n = if n == 0 {
            1
        } else {
            n
        };
        let mut arena = SyncArena {
            items: Vec::new(),
            generation: 0,
            free_list_head: None,
            len: 0,
            sync_index_map: HashMap::new(),
            free_chain: Ghost(Seq::empty()),
        };
        proof {
            assert(arena@ =~= Map::<u64, T>::empty());
        }
        arena.reserve(n);
        arena
    }

    /// Adds `additional_capacity` free slots at the end, linked in front of
    /// the free list.
    pub fn reserve(&mut self, additional_capacity: usize)
        requires
            old(self).wf(),
            old(self).spec_capacity() + additional_capacity <= MAX_SLOTS,
        ensures
            final(self).wf(),
            final(self)@ == old(self)@,
            final(self).spec_capacity() == old(self).spec_capacity() + additional_capacity,
            final(self).spec_generation() == old(self).spec_generation(),
            final(self).spare() == old(self).spare() + additional_capacity,
            final(self).room() == old(self).room(),
            forall|h: Index| #[trigger] final(self).located(h) == old(self).located(h),
    {
        if additional_capacity == 0 {
            return;
        }
        let start = self.items.len();
        let end = start + additional_capacity;
        let old_head = self.free_list_head;
        let ghost old_items = self.items@;
        let ghost old_chain = self.free_chain@;
        let mut i: usize = start;
        while i < end
            invariant
                start <= i <= end,
                end == start + additional_capacity,
                end <= MAX_SLOTS,
                start == old_items.len(),
                self.items@.len() == i,
                forall|j: int| 0 <= j < start ==> self.items@[j] == old_items[j],
                forall|j: int|
                    start <= j < i ==> #[trigger] self.items@[j] == (Entry::<T>::Free {
                        next_free: if j == end - 1 {
                            old_head
                        } else {
                            Some((j + 1) as u32)
                        },
                    }),
                self.free_list_head == old_head,
                self.free_chain@ == old_chain,
                self.generation == old(self).generation,
                self.len == old(self).len,
                self.sync_index_map@ == old(self).sync_index_map@,
            decreases end - i,
        {
            let entry = if i == end - 1 {
                Entry::Free { next_free: old_head }
            } else {
                Entry::Free { next_free: Some((i + 1) as u32) }
            };
            self.items.push(entry);
            i = i + 1;
        }
        self.free_list_head = Some(start as u32);
        proof {
            lemma_chain_extend(old_items, self.items@, old_chain, old_head, additional_capacity as int);
            lemma_map_extend(old_items, self.items@, self.sync_index_map@);
        }
        self.free_chain = Ghost(
            Seq::new(additional_capacity as nat, |k: int| (start + k) as u32) + old_chain,
        );
        proof {
            assert(self@ =~= old(self)@);
            assert forall|h: Index| #[trigger] self.located(h) == old(self).located(h) by {
                if (h.index as int) < old_items.len() {
                    assert(self.items@[h.index as int] == old_items[h.index as int]);
                } else if (h.index as int) < self.items@.len() {
                    assert(self.items@[h.index as int] is Free);
                }
            }
        }
    }

    /// An id that no object of the arena has.
    fn fresh_sync_id(&self) -> (r: u64)
        requires
            self.wf(),
        ensures
            !self@.contains_key(r),
    {
        proof {
            self.lemma_view_dom();
        }
        fresh_key(&self.sync_index_map)
    }

    /// Adds free slots: as many as there are (at least one), within the bound.
    fn grow(&mut self)
        requires
            old(self).wf(),
            old(self).room() > 0,
        ensures
            final(self).wf(),
            final(self)@ == old(self)@,
            final(self).spare() > 0,
            final(self).room() == old(self).room(),
            final(self).spec_generation() == old(self).spec_generation(),
            forall|h: Index| #[trigger] final(self).located(h) == old(self).located(h),
    {
        let cap = self.items.len();
        let add = if cap == 0 {
            1
        } else if cap <= MAX_SLOTS - cap {
            cap
        } else {
            MAX_SLOTS - cap
        };
        self.reserve(add);
    }

    /// Puts `value` under `sync_id` into the slot at the head of the free list.
    fn occupy_free_slot(&mut self, value: T, sync_id: u64) -> (r: Index)
        requires
            old(self).wf(),
            old(self).spare() > 0,
            !old(self)@.contains_key(sync_id),
        ensures
            final(self).wf(),
            final(self)@ == old(self)@.insert(sync_id, value),
            r == (Index {
                index: old(self).free_chain@[0],
                generation: old(self).generation,
                synced: true,
                sync_id,
            }),
            final(self).located(r) == Some(sync_id),
            final(self).spare() == old(self).spare() - 1,
            final(self).room() == old(self).room() - 1,
            final(self).spec_capacity() == old(self).spec_capacity(),
            final(self).spec_generation() == old(self).spec_generation(),
            final(self)@.len() == old(self)@.len() + 1,
            forall|h: Index| #[trigger]
                old(self).located(h) is Some ==> final(self).located(h) == old(self).located(h),
            forall|h: Index| #[trigger]
                final(self).located(h) is Some ==> old(self).located(h) is Some || (h.spec_index()
                    == r.spec_index() && h.spec_generation() == r.spec_generation()),
    {
        proof {
            self.lemma_view_dom();
        }
        let ghost old_items = self.items@;
        let ghost fc = self.free_chain@;
        let slot = self.free_list_head.unwrap();
        let next = match &self.items[slot as usize] {
            Entry::Free { next_free } => *next_free,
            Entry::Occupied { .. } => None,
        };
        self.free_list_head = next;
        let generation = self.generation;
        self.items.set(slot as usize, Entry::Occupied { generation, sync_id, value });
        self.sync_index_map.insert(sync_id, (slot, generation));
        self.len = self.sync_index_map.len();
        self.free_chain = Ghost(fc.drop_first());
        proof {
            let items = self.items@;
            let nfc = self.free_chain@;
            assert(fc[0] == slot);
            assert forall|k: int| 0 <= k < nfc.len() implies items[#[trigger] nfc[k] as int] == (
            Entry::<T>::Free { next_free: chain_next(nfc, k) }) by {
                assert(nfc[k] == fc[k + 1]);
                assert(fc[k + 1] != fc[0]);
                if k + 1 < nfc.len() {
                    assert(nfc[k + 1] == fc[k + 2]);
                }
            }
            assert forall|k: int| 0 <= k < nfc.len() implies (#[trigger] nfc[k] as int) < items.len() by {
                assert(nfc[k] == fc[k + 1]);
            }
            if nfc.len() > 0 {
                assert(nfc[0] == fc[1]);
            }
            let m = self.sync_index_map@;
            assert forall|i: int| 0 <= i < items.len() && (#[trigger] items[i]) is Occupied implies {
                &&& m.contains_key(id_of(items[i]))
                &&& m[id_of(items[i])] == (i as u32, gen_of(items[i]))
            } by {
                if i != slot as int {
                    assert(items[i] == old_items[i]);
                }
            }
            assert forall|id: u64| #[trigger] m.contains_key(id) implies {
                &&& (m[id].0 as int) < items.len()
                &&& items[m[id].0 as int] is Occupied
                &&& gen_of(items[m[id].0 as int]) == m[id].1
                &&& id_of(items[m[id].0 as int]) == id
            } by {
                if id != sync_id {
                    assert(old(self).sync_index_map@.contains_key(id));
                    assert(m[id] == old(self).sync_index_map@[id]);
                    assert(m[id].0 != slot);
                }
            }
            assert(self@ =~= old(self)@.insert(sync_id, value));
            assert forall|h: Index| #[trigger] old(self).located(h) is Some implies self.located(h)
                == old(self).located(h) by {
                assert(h.index != slot);
            }
            assert forall|h: Index| #[trigger] self.located(h) is Some implies old(self).located(h)
                is Some || (h.index == slot && h.generation == generation) by {
                if h.index != slot {
                    assert(items[h.index as int] == old_items[h.index as int]);
                }
            }
        }
        Index { index: slot, generation, synced: true, sync_id }
    }

    /// Inserts `value` under a fresh sync id into a free slot, without growing;
    /// gives the value back when no slot is free.
    pub fn try_insert(&mut self, value: T) -> (r: Result<Index, T>)
        requires
            old(self).wf(),
        ensures
            final(self).wf(),
            r is Err <==> old(self).spare() == 0,
            r matches Err(v) ==> v == value && *final(self) == *old(self),
            r matches Ok(i) ==> {
                &&& !old(self)@.contains_key(i.spec_sync_id())
                &&& final(self)@ == old(self)@.insert(i.spec_sync_id(), value)
                &&& final(self).resolve(i) == Some(i.spec_sync_id())
                &&& final(self).spare() == old(self).spare() - 1
                &&& final(self).spec_capacity() == old(self).spec_capacity()
                &&& final(self).spec_generation() == old(self).spec_generation()
                &&& i.spec_synced()
                &&& i.spec_generation() == old(self).spec_generation()
                &&& final(self).located(i) == Some(i.spec_sync_id())
                &&& final(self)@.len() == old(self)@.len() + 1
            },
            r is Ok ==> forall|h: Index| #[trigger]
                old(self).located(h) is Some ==> final(self).located(h) == old(self).located(h),
            r is Ok ==> forall|h: Index| #[trigger]
                final(self).located(h) is Some ==> old(self).located(h) is Some || (h.spec_index()
                    == r->Ok_0.spec_index() && h.spec_generation() == r->Ok_0.spec_generation()),
    {
        if self.free_list_head.is_none() {
            return Err(value);
        }
        let sync_id = self.fresh_sync_id();
        Ok(self.occupy_free_slot(value, sync_id))
    }

    /// Inserts the value that `create` makes from the new object's handle,
    /// without growing; gives `create` back when no slot is free.
    pub fn try_insert_with<F: FnOnce(Index) -> T>(&mut self, create: F) -> (r: Result<Index, F>)
        requires
            old(self).wf(),
            forall|i: Index| create.requires((i,)),
        ensures
            final(self).wf(),
            r is Err <==> old(self).spare() == 0,
            r is Err ==> *final(self) == *old(self),
            r is Ok ==> exists|v: T|
                {
                    &&& #[trigger] create.ensures((r->Ok_0,), v)
                    &&& !old(self)@.contains_key(r->Ok_0.spec_sync_id())
                    &&& final(self)@ == old(self)@.insert(r->Ok_0.spec_sync_id(), v)
                },
            r is Ok ==> final(self).resolve(r->Ok_0) == Some(r->Ok_0.spec_sync_id()),
            r is Ok ==> final(self).spare() == old(self).spare() - 1,
            r is Ok ==> r->Ok_0.spec_synced() && final(self).located(r->Ok_0) == Some(
                r->Ok_0.spec_sync_id(),
            ) && final(self)@.len() == old(self)@.len() + 1,
            r is Ok ==> forall|h: Index| #[trigger]
                final(self).located(h) is Some ==> old(self).located(h) is Some || (h.spec_index()
                    == r->Ok_0.spec_index() && h.spec_generation() == r->Ok_0.spec_generation()),
            final(self).spec_generation() == old(self).spec_generation(),
    {
        if self.free_list_head.is_none() {
            Err(create)
        } else {
            Ok(self.occupy_free_slot_with(create))
        }
    }

    /// Inserts `value` under a fresh sync id, growing the arena when no slot
    /// is free.
    pub fn insert(&mut self, value: T) -> (r: Index)
        requires
            old(self).wf(),
            old(self).room() > 0,
        ensures
            final(self).wf(),
            !old(self)@.contains_key(r.spec_sync_id()),
            final(self)@ == old(self)@.insert(r.spec_sync_id(), value),
            final(self).resolve(r) == Some(r.spec_sync_id()),
            final(self).room() == old(self).room() - 1,
            final(self).spec_generation() == old(self).spec_generation(),
            final(self)@.len() == old(self)@.len() + 1,
            r.spec_synced(),
            r.spec_generation() == old(self).spec_generation(),
            final(self).located(r) == Some(r.spec_sync_id()),
            forall|h: Index| #[trigger]
                old(self).located(h) is Some ==> final(self).located(h) == old(self).located(h),
            forall|h: Index| #[trigger]
                final(self).located(h) is Some ==> old(self).located(h) is Some || (h.spec_index()
                    == r.spec_index() && h.spec_generation() == r.spec_generation()),
    {
        let sync_id = self.fresh_sync_id();
        self.insert_with_known_sync_id(value, sync_id)
    }

    /// Inserts `value` under a sync id that a peer gave it, growing the arena
    /// when no slot is free. The id must not be present yet.
    pub fn insert_with_known_sync_id(&mut self, value: T, sync_id: u64) -> (r: Index)
        requires
            old(self).wf(),
            old(self).room() > 0,
            !old(self)@.contains_key(sync_id),
        ensures
            final(self).wf(),
            r.spec_sync_id() == sync_id,
            r.spec_synced(),
            final(self)@ == old(self)@.insert(sync_id, value),
            final(self).resolve(r) == Some(sync_id),
            final(self).room() == old(self).room() - 1,
            final(self).spec_generation() == old(self).spec_generation(),
            r.spec_generation() == old(self).spec_generation(),
            final(self).located(r) == Some(r.spec_sync_id()),
            final(self)@.len() == old(self)@.len() + 1,
            forall|h: Index| #[trigger]
                old(self).located(h) is Some ==> final(self).located(h) == old(self).located(h),
            forall|h: Index| #[trigger]
                final(self).located(h) is Some ==> old(self).located(h) is Some || (h.spec_index()
                    == r.spec_index() && h.spec_generation() == r.spec_generation()),
    {
        let ghost before = *self;
        if self.free_list_head.is_none() {
            self.grow();
        }
        let ghost grown = *self;
        let r = self.occupy_free_slot(value, sync_id);
        proof {
            assert forall|h: Index| #[trigger] old(self).located(h) is Some implies self.located(h)
                == old(self).located(h) by {
                assert(grown.located(h) == old(self).located(h));
            }
            assert forall|h: Index| #[trigger] self.located(h) is Some implies old(self).located(h)
                is Some || (h.spec_index() == r.spec_index() && h.spec_generation()
                == r.spec_generation()) by {
                assert(grown.located(h) == old(self).located(h));
            }
        }
        r
    }

    /// Inserts the value that `create` makes from the new object's handle,
    /// growing the arena when no slot is free.
    pub fn insert_with<F: FnOnce(Index) -> T>(&mut self, create: F) -> (r: Index)
        requires
            old(self).wf(),
            old(self).room() > 0,
            forall|i: Index| create.requires((i,)),
        ensures
            final(self).wf(),
            exists|v: T|
                {
                    &&& #[trigger] create.ensures((r,), v)
                    &&& !old(self)@.contains_key(r.spec_sync_id())
                    &&& final(self)@ == old(self)@.insert(r.spec_sync_id(), v)
                },
            final(self).resolve(r) == Some(r.spec_sync_id()),
            final(self).room() == old(self).room() - 1,
            final(self).spec_generation() == old(self).spec_generation(),
            r.spec_synced(),
            r.spec_generation() == old(self).spec_generation(),
            final(self).located(r) == Some(r.spec_sync_id()),
            final(self)@.len() == old(self)@.len() + 1,
            forall|h: Index| #[trigger]
                old(self).located(h) is Some ==> final(self).located(h) == old(self).located(h),
            forall|h: Index| #[trigger]
                final(self).located(h) is Some ==> old(self).located(h) is Some || (h.spec_index()
                    == r.spec_index() && h.spec_generation() == r.spec_generation()),
    {
        if self.free_list_head.is_none() {
            self.grow();
        }
        let ghost grown = *self;
        let r = self.occupy_free_slot_with(create);
        proof {
            assert forall|h: Index| #[trigger] old(self).located(h) is Some implies self.located(h)
                == old(self).located(h) by {
                assert(grown.located(h) == old(self).located(h));
            }
            assert forall|h: Index| #[trigger] self.located(h) is Some implies old(self).located(h)
                is Some || (h.spec_index() == r.spec_index() && h.spec_generation()
                == r.spec_generation()) by {
                assert(grown.located(h) == old(self).located(h));
            }
        }
        r
    }

    /// Puts the value that `create` makes from its handle under a fresh sync
    /// id into the slot at the head of the free list.
    fn occupy_free_slot_with<F: FnOnce(Index) -> T>(&mut self, create: F) -> (r: Index)
        requires
            old(self).wf(),
            old(self).spare() > 0,
            forall|i: Index| create.requires((i,)),
        ensures
            final(self).wf(),
            exists|v: T|
                {
                    &&& #[trigger] create.ensures((r,), v)
                    &&& !old(self)@.contains_key(r.spec_sync_id())
                    &&& final(self)@ == old(self)@.insert(r.spec_sync_id(), v)
                },
            final(self).resolve(r) == Some(r.spec_sync_id()),
            final(self).spare() == old(self).spare() - 1,
            final(self).room() == old(self).room() - 1,
            final(self).spec_generation() == old(self).spec_generation(),
            final(self)@.len() == old(self)@.len() + 1,
            r.spec_synced(),
            r.spec_generation() == old(self).spec_generation(),
            final(self).located(r) == Some(r.spec_sync_id()),
            forall|h: Index| #[trigger]
                old(self).located(h) is Some ==> final(self).located(h) == old(self).located(h),
            forall|h: Index| #[trigger]
                final(self).located(h) is Some ==> old(self).located(h) is Some || (h.spec_index()
                    == r.spec_index() && h.spec_generation() == r.spec_generation()),
    {
        let sync_id = self.fresh_sync_id();
        let index = Index {
            index: self.free_list_head.unwrap(),
            generation: self.generation,
            synced: true,
            sync_id,
        };
        let ghost g0 = self.generation;
        let value = create(index);
        let ghost mid = *self;
        let r = self.occupy_free_slot(value, sync_id);
        proof {
            assert(r == index);
            assert(r.synced);
            assert(r.generation == g0);
            assert(g0 == old(self).generation);
            assert(create.ensures((r,), value));
        }
        r
    }

    /// Removes the object that the handle's slot and generation name, and
    /// returns it; `None` when the slot is empty, out of range or was reused.
    /// The freed slot goes to the head of the free list, and the arena
    /// generation goes up.
    pub fn remove(&mut self, i: Index) -> (r: Option<T>)
        requires
            old(self).wf(),
        ensures
            final(self).wf(),
            final(self).spec_generation() >= old(self).spec_generation(),
            final(self).spec_capacity() == old(self).spec_capacity(),
            old(self).located(i) is None ==> r is None && *final(self) == *old(self),
            old(self).located(i) matches Some(id) ==> {
                &&& r == Some(old(self)@[id])
                &&& final(self)@ == old(self)@.remove(id)
                &&& final(self).spec_generation() == bumped(old(self).spec_generation())
                &&& final(self).room() == old(self).room() + 1
                &&& final(self).located(i) is None
                &&& final(self).freed_from(old(self), i)
                &&& final(self)@.len() == old(self)@.len() - 1
                &&& forall|h: Index| #[trigger]
                    old(self).located(h) is Some && h.spec_index() != i.spec_index()
                        ==> final(self).located(h) == old(self).located(h)
            },
    {
        proof {
            self.lemma_view_dom();
        }
        let idx = i.index as usize;
        if idx >= self.items.len() {
            return None;
        }
        let hit = match &self.items[idx] {
            Entry::Occupied { generation, .. } => *generation == i.generation,
            Entry::Free { .. } => false,
        };
        if !hit {
            return None;
        }
        let ghost old_items = self.items@;
        let ghost fc = self.free_chain@;
        let old_head = self.free_list_head;
        let mut entry = Entry::Free { next_free: old_head };
        self.items.set_and_swap(idx, &mut entry);
        self.generation = if self.generation < u32::MAX {
            self.generation + 1
        } else {
            self.generation
        };
        self.free_list_head = Some(i.index);
        self.free_chain = Ghost(seq![i.index] + fc);
        match entry {
            Entry::Occupied { value, sync_id, .. } => {
                self.sync_index_map.remove(&sync_id);
                self.len = self.sync_index_map.len();
                proof {
                    let items = self.items@;
                    let nfc = self.free_chain@;
                    assert(!fc.contains(i.index)) by {
                        if fc.contains(i.index) {
                            let k = choose|k: int| 0 <= k < fc.len() && fc[k] == i.index;
                            assert(old_items[fc[k] as int] is Free);
                        }
                    }
                    assert forall|k: int| 0 <= k < nfc.len() implies items[#[trigger] nfc[k] as int]
                        == (Entry::<T>::Free { next_free: chain_next(nfc, k) }) by {
                        if k > 0 {
                            assert(nfc[k] == fc[k - 1]);
                            assert(fc[k - 1] != i.index);
                            if k + 1 < nfc.len() {
                                assert(nfc[k + 1] == fc[k]);
                            }
                        } else if fc.len() > 0 {
                            assert(nfc[1] == fc[0]);
                        }
                    }
                    assert forall|k: int| 0 <= k < nfc.len() implies (#[trigger] nfc[k] as int)
                        < items.len() by {
                        if k > 0 {
                            assert(nfc[k] == fc[k - 1]);
                        }
                    }
                    assert forall|a: int, b: int|
                        0 <= a < nfc.len() && 0 <= b < nfc.len() && a != b implies nfc[a]
                        != nfc[b] by {
                        if a > 0 && b > 0 {
                            assert(fc[a - 1] != fc[b - 1]);
                        } else if a > 0 {
                            assert(nfc[a] == fc[a - 1]);
                        } else if b > 0 {
                            assert(nfc[b] == fc[b - 1]);
                        }
                    }
                    let m = self.sync_index_map@;
                    let om = old(self).sync_index_map@;
                    assert forall|id: u64| #[trigger] m.contains_key(id) implies {
                        &&& (m[id].0 as int) < items.len()
                        &&& items[m[id].0 as int] is Occupied
                        &&& gen_of(items[m[id].0 as int]) == m[id].1
                        &&& id_of(items[m[id].0 as int]) == id
                    } by {
                        assert(om.contains_key(id));
                        assert(m[id] == om[id]);
                        assert(om[id].0 != i.index);
                    }
                    assert forall|j: int| 0 <= j < items.len() && (#[trigger] items[j]) is Occupied implies {
                        &&& m.contains_key(id_of(items[j]))
                        &&& m[id_of(items[j])] == (j as u32, gen_of(items[j]))
                    } by {
                        assert(items[j] == old_items[j]);
                        assert(om.contains_key(id_of(items[j])));
                        assert(id_of(items[j]) != sync_id);
                    }
                    assert(self@ =~= old(self)@.remove(sync_id));
                    self.lemma_view_dom();
                    assert forall|h: Index| #[trigger]
                        old(self).located(h) is Some && h.index != i.index implies self.located(h)
                        == old(self).located(h) by {
                        assert(items[h.index as int] == old_items[h.index as int]);
                    }
                }
                Some(value)
            },
            Entry::Free { .. } => None,
        }
    }

    /// Resolves a handle that knows only its sync id, in place: its slot and
    /// generation are filled in from the sync id, when that is present.
    fn resolve_in_place(&self, i: &mut Index)
        requires
            self.wf(),
        ensures
            *final(i) == self.resolved(*old(i)),
            self.resolve(*final(i)) == self.resolve(*old(i)),
            self.resolve(*old(i)) is Some ==> final(i).synced,
            final(i).sync_id == old(i).sync_id,
    {
        proof {
            self.lemma_view_dom();
        }
        if !i.synced {
            match self.sync_index_map.get(&i.sync_id) {
                Some(p) => {
                    i.index = p.0;
                    i.generation = p.1;
                    i.synced = true;
                },
                None => {},
            }
        }
    }

    /// The object that a handle resolves to. A handle that knows only its
    /// sync id gets its slot and generation filled in.
    pub fn get(&self, i: &mut Index) -> (r: Option<&T>)
        requires
            self.wf(),
        ensures
            *final(i) == self.resolved(*old(i)),
            self.resolve(*final(i)) == self.resolve(*old(i)),
            self.resolve(*old(i)) is Some ==> final(i).spec_synced() && self.located(*final(i))
                == self.resolve(*old(i)),
            final(i).spec_sync_id() == old(i).spec_sync_id(),
            r is Some <==> self.resolve(*old(i)) is Some,
            r is Some ==> *r.unwrap() == self@[self.resolve(*old(i)).unwrap()],
    {
        self.resolve_in_place(i);
        if !i.synced {
            return None;
        }
        let idx = i.index as usize;
        if idx >= self.items.len() {
            return None;
        }
        match &self.items[idx] {
            Entry::Occupied { generation, value, .. } => {
                if *generation == i.generation {
                    Some(value)
                } else {
                    None
                }
            },
            Entry::Free { .. } => None,
        }
    }

    /// Like `get`, with the object lent for change.
    pub fn get_mut(&mut self, i: &mut Index) -> (r: Option<&mut T>)
        requires
            old(self).wf(),
        ensures
            *final(i) == old(self).resolved(*old(i)),
            old(self).resolve(*final(i)) == old(self).resolve(*old(i)),
            old(self).resolve(*old(i)) is Some ==> final(i).spec_synced() && old(self).located(*final(i))
                == old(self).resolve(*old(i)),
            final(i).spec_sync_id() == old(i).spec_sync_id(),

            r is Some <==> old(self).resolve(*old(i)) is Some,
            r is None ==> *final(self) == *old(self),
            r is Some ==> {
                &&& *r.unwrap() == old(self)@[old(self).resolve(*old(i)).unwrap()]
                &&& final(self).wf()
                &&& final(self)@ == old(self)@.insert(
                    old(self).resolve(*old(i)).unwrap(),
                    *final(r.unwrap()),
                )
                &&& final(self).spec_generation() == old(self).spec_generation()
                &&& final(self).room() == old(self).room()
                &&& final(self).resolve(*final(i)) == old(self).resolve(*old(i))
            },
    {
        self.resolve_in_place(i);
        if !i.synced {
            return None;
        }
        let idx = i.index as usize;
        if idx >= self.items.len() {
            return None;
        }
        let hit = match &self.items[idx] {
            Entry::Occupied { generation, .. } => *generation == i.generation,
            Entry::Free { .. } => false,
        };
        if !hit {
            return None;
        }
        proof {
            self.lemma_view_dom();
            assert forall|v: T| true implies {
                let items2 = #[trigger] with_value(self.items@, idx as int, v);
                &&& chain_valid(items2, self.free_chain@, self.free_list_head)
                &&& map_valid(items2, self.sync_index_map@)
            } by {
                lemma_value_update(
                    self.items@,
                    self.free_chain@,
                    self.free_list_head,
                    self.sync_index_map@,
                    idx as int,
                    v,
                );
            }
        }
        let r = match &mut self.items[idx] {
            Entry::Occupied { value, .. } => Some(value),
            Entry::Free { .. } => None,
        };
        r
    }

    /// Whether the handle resolves to an object; see `get`.
    pub fn contains(&self, i: &mut Index) -> (r: bool)
        requires
            self.wf(),
        ensures
            *final(i) == self.resolved(*old(i)),
            r == self.resolve(*old(i)) is Some,
            self.resolve(*old(i)) is Some ==> final(i).spec_synced() && self.located(*final(i))
                == self.resolve(*old(i)),
            final(i).spec_sync_id() == old(i).spec_sync_id(),

    {
        self.get(i).is_some()
    }

    /// Frees every slot, keeping their number; the generation goes up, so
    /// that no earlier handle names a later object.
    pub fn clear(&mut self)
        requires
            old(self).wf(),
        ensures
            final(self).wf(),
            final(self)@ == Map::<u64, T>::empty(),
            final(self).spec_capacity() == old(self).spec_capacity(),
            final(self).spec_generation() == bumped(old(self).spec_generation()),
            final(self).spare() == final(self).spec_capacity(),
            final(self).room() == MAX_SLOTS,
            forall|h: Index| #[trigger] final(self).resolve(h) is None,
    {
        let n = self.items.len();
        self.items = Vec::new();
        self.free_list_head = None;
        self.free_chain = Ghost(Seq::empty());
        self.sync_index_map.clear();
        self.len = 0;
        self.generation = if self.generation < u32::MAX {
            self.generation + 1
        } else {
            self.generation
        };
        proof {
            assert(self@ =~= Map::<u64, T>::empty());
            assert forall|h: Index| #[trigger] self.located(h) is None by {}
        }
        self.reserve(n);
        proof {
            assert forall|h: Index| #[trigger] self.resolve(h) is None by {
                assert(self.located(h) is None);
            }
        }
    }

    /// The sync id of the object in slot `i`, whatever its generation.
    pub closed spec fn occupant(&self, i: u32) -> Option<u64> {
        if (i as int) < self.items@.len() && self.items@[i as int] is Occupied {
            Some(id_of(self.items@[i as int]))
        } else {
            None
        }
    }

    /// The object in slot `i`, whatever its generation, with its handle.
    pub fn get_unknown_gen(&self, i: u32) -> (r: Option<(&T, Index)>)
        requires
            self.wf(),
        ensures
            r is Some <==> self.occupant(i) is Some,
            r matches Some(p) ==> {
                let id = self.occupant(i).unwrap();
                &&& *p.0 == self@[id]
                &&& p.1.spec_index() == i
                &&& p.1.spec_sync_id() == id
                &&& p.1.spec_synced()
                &&& self.located(p.1) == Some(id)
                &&& self.resolve(p.1) == Some(id)
            },
    {
        if i as usize >= self.items.len() {
            return None;
        }
        match &self.items[i as usize] {
            Entry::Occupied { generation, sync_id, value } => {
                proof {
                    assert(self.items@[i as int] is Occupied);
                    assert(self.sync_index_map@.contains_key(*sync_id));
                    self.lemma_view_dom();
                }
                Some((value, Index { index: i, generation: *generation, synced: true, sync_id: *sync_id }))
            },
            Entry::Free { .. } => None,
        }
    }

    /// Like `get_unknown_gen`, with the object lent for change.
    pub fn get_unknown_gen_mut(&mut self, i: u32) -> (r: Option<(&mut T, Index)>)
        requires
            old(self).wf(),
        ensures
            r is Some <==> old(self).occupant(i) is Some,
            r is None ==> *final(self) == *old(self),
            r matches Some(p) ==> {
                let id = old(self).occupant(i).unwrap();
                &&& *p.0 == old(self)@[id]
                &&& p.1.spec_index() == i
                &&& p.1.spec_sync_id() == id
                &&& p.1.spec_synced()
                &&& old(self).located(p.1) == Some(id)
                &&& old(self).resolve(p.1) == Some(id)
                &&& final(self).wf()
                &&& final(self)@ == old(self)@.insert(id, *final(p.0))
                &&& final(self).resolve(p.1) == Some(id)
                &&& final(self).spec_generation() == old(self).spec_generation()
                &&& final(self).room() == old(self).room()
            },
    {
        if i as usize >= self.items.len() {
            return None;
        }
        let idx = i as usize;
        let found = match &self.items[idx] {
            Entry::Occupied { generation, sync_id, .. } => Some((*generation, *sync_id)),
            Entry::Free { .. } => None,
        };
        match found {
            None => None,
            Some((generation, sync_id)) => {
                proof {
                    self.lemma_view_dom();
                    assert(self.items@[idx as int] is Occupied);
                    assert(self.sync_index_map@.contains_key(sync_id));
                    assert forall|v: T| true implies {
                        let items2 = #[trigger] with_value(self.items@, idx as int, v);
                        &&& chain_valid(items2, self.free_chain@, self.free_list_head)
                        &&& map_valid(items2, self.sync_index_map@)
                    } by {
                        lemma_value_update(
                            self.items@,
                            self.free_chain@,
                            self.free_list_head,
                            self.sync_index_map@,
                            idx as int,
                            v,
                        );
                    }
                }
                let handle = Index { index: i, generation, synced: true, sync_id };
                match &mut self.items[idx] {
                    Entry::Occupied { value, .. } => Some((value, handle)),
                    Entry::Free { .. } => None,
                }
            },
        }
    }

    /// The handle of the object under a sync id that is present.
    pub closed spec fn handle_of(&self, k: u64) -> Index {
        Index {
            index: self.sync_index_map@[k].0,
            generation: self.sync_index_map@[k].1,
            synced: true,
            sync_id: k,
        }
    }

    /// Keeps the objects for which `predicate` holds, given each one's
    /// handle and value, and removes the others.
    pub fn retain<F: Fn(Index, &T) -> bool>(&mut self, predicate: F)
        requires
            old(self).wf(),
            forall|i: Index, v: &T| predicate.requires((i, v)),
        ensures
            final(self).wf(),
            final(self).spec_generation() == bumped_by(
                old(self).spec_generation(),
                old(self)@.dom().difference(final(self)@.dom()).len(),
            ),
            forall|k: u64| #[trigger]
                final(self)@.contains_key(k) ==> old(self)@.contains_key(k) && final(self)@[k]
                    == old(self)@[k],
            forall|k: u64| #[trigger]
                old(self)@.contains_key(k) ==> (final(self)@.contains_key(k) ==> predicate.ensures(
                    (old(self).handle_of(k), &old(self)@[k]),
                    true,
                )) && (!final(self)@.contains_key(k) ==> predicate.ensures(
                    (old(self).handle_of(k), &old(self)@[k]),
                    false,
                )),
    {
        proof {
            self.lemma_view_dom();
        }
        let ghost om = self.sync_index_map@;
        proof {
            old(self).lemma_finite();
            assert(old(self)@.dom().difference(self@.dom()) =~= Set::<u64>::empty());
        }
        let ghost oitems = self.items@;
        let mut i: usize = 0;
        while i < self.items.len()
            invariant
                self.wf(),
                old(self).wf(),
                om == old(self).sync_index_map@,
                oitems == old(self).items@,
                old(self)@.dom() == om.dom(),
                self@.dom() == self.sync_index_map@.dom(),
                self.items@.len() == oitems.len(),
                0 <= i <= self.items@.len(),
                forall|j: int| i <= j < oitems.len() ==> self.items@[j] == oitems[j],
                self.spec_generation() == bumped_by(
                    old(self).spec_generation(),
                    old(self)@.dom().difference(self@.dom()).len(),
                ),
                old(self)@.dom().finite(),
                forall|i: Index, v: &T| predicate.requires((i, v)),
                forall|k: u64| #[trigger]
                    self.sync_index_map@.contains_key(k) ==> om.contains_key(k)
                        && self.sync_index_map@[k] == om[k],
                forall|k: u64| #[trigger]
                    self@.contains_key(k) ==> old(self)@.contains_key(k) && self@[k] == old(self)@[k],
                forall|k: u64| #[trigger]
                    om.contains_key(k) && (om[k].0 as int) >= i ==> self.sync_index_map@.contains_key(k),
                forall|k: u64| #[trigger]
                    om.contains_key(k) && (om[k].0 as int) < i ==> (self@.contains_key(k)
                        ==> predicate.ensures((old(self).handle_of(k), &old(self)@[k]), true)) && (
                    !self@.contains_key(k) ==> predicate.ensures(
                        (old(self).handle_of(k), &old(self)@[k]),
                        false,
                    )),
            decreases oitems.len() - i,
        {
            let found = match &self.items[i] {
                Entry::Occupied { generation, sync_id, value } => {
                    let handle = Index { index: i as u32, generation: *generation, synced: true, sync_id: *sync_id };
                    proof {
                        assert(self.items@[i as int] == oitems[i as int]);
                        assert(om.contains_key(*sync_id));
                        assert(om[*sync_id] == (i as u32, *generation));
                        assert(handle == old(self).handle_of(*sync_id));
                        assert(old(self)@[*sync_id] == *value);
                    }
                    let keep = predicate(handle, value);
                    if keep {
                        None
                    } else {
                        Some(handle)
                    }
                },
                Entry::Free { .. } => None,
            };
            let ghost before_map = self.sync_index_map@;
            let ghost before_view = self@;
            let ghost old_self = *self;
            match found {
                Some(handle) => {
                    proof {
                        assert(self.located(handle) == Some(handle.sync_id));
                    }
                    self.remove(handle);
                    proof {
                        let k = handle.sync_id;
                        assert(before_view.contains_key(k));
                        assert(old(self)@.dom().difference(self@.dom()) =~= old(self)@.dom().difference(
                            before_view.dom(),
                        ).insert(k));
                        assert(self.freed_from(&old_self, handle));
                        self.lemma_view_dom();
                        assert forall|k: u64| #[trigger] self.sync_index_map@.contains_key(k) implies om.contains_key(k)
                            && self.sync_index_map@[k] == om[k] by {
                            assert(before_map.contains_key(k));
                        }
                    }
                },
                None => {},
            }
            proof {
                self.lemma_view_dom();
                assert forall|k: u64| #[trigger]
                    om.contains_key(k) && (om[k].0 as int) >= i + 1 implies self.sync_index_map@.contains_key(k) by {
                    assert(before_map.contains_key(k));
                    if self.items@[i as int] is Occupied {
                        assert(oitems[om[k].0 as int] is Occupied);
                    }
                }
                assert forall|k: u64| #[trigger]
                    om.contains_key(k) && (om[k].0 as int) < i + 1 implies (self@.contains_key(k)
                        ==> predicate.ensures((old(self).handle_of(k), &old(self)@[k]), true)) && (
                    !self@.contains_key(k) ==> predicate.ensures(
                        (old(self).handle_of(k), &old(self)@[k]),
                        false,
                    )) by {
                    if (om[k].0 as int) < i {
                        assert(self@.contains_key(k) ==> before_view.contains_key(k));
                        assert(before_view.contains_key(k) && !self@.contains_key(k) ==> false) by {
                            if before_view.contains_key(k) && !self@.contains_key(k) {
                                assert(before_map.contains_key(k));
                                assert(before_map[k].0 == om[k].0);
                            }
                        }
                    }
                }
            }
            i = i + 1;
        }
    }

    /// Whether slot `idx` holds nothing but the mark of a detached object,
    /// so that an object of generation `generation` and id `sync_id` can go
    /// back into it.
    pub closed spec fn can_reattach(&self, idx: usize, generation: u32, sync_id: u64) -> bool {
        &&& idx < self.items@.len()
        &&& self.items@[idx as int] == (Entry::<T>::Free { next_free: Some(DETACHED) })
        &&& !self.sync_index_map@.contains_key(sync_id)
        &&& generation <= self.generation
    }

    /// Whether slot `idx` holds the mark of a detached object.
    pub closed spec fn is_detached(&self, idx: usize) -> bool {
        idx < self.items@.len() && self.items@[idx as int] == (Entry::<T>::Free {
            next_free: Some(DETACHED),
        })
    }

    /// No slot at or after `start` holds an object.
    pub closed spec fn empty_from(&self, start: int) -> bool {
        forall|j: int| start <= j < self.items@.len() && 0 <= j ==> !(
        #[trigger] self.items@[j] is Occupied)
    }

    /// No slot from `start` up to before `end` holds an object.
    pub closed spec fn empty_range(&self, start: int, end: int) -> bool {
        forall|j: int| start <= j < end && 0 <= j < self.items@.len() ==> !(
        #[trigger] self.items@[j] is Occupied)
    }

    /// No slot before `end` holds an object.
    pub closed spec fn empty_below(&self, end: int) -> bool {
        forall|j: int| 0 <= j < end && j < self.items@.len() ==> !(#[trigger] self.items@[j] is Occupied)
    }

    /// With no object from the first slot on, the arena holds none.
    pub proof fn lemma_empty_from_start(&self)
        requires
            self.wf(),
            self.empty_from(0),
        ensures
            self@ == Map::<u64, T>::empty(),
    {
        self.lemma_empty_everywhere(0);
    }

    /// With no object before `start` and none from it on, there is none.
    proof fn lemma_empty_everywhere(&self, start: int)
        requires
            self.wf(),
            self.empty_below(start),
            self.empty_from(start),
        ensures
            self@ == Map::<u64, T>::empty(),
    {
        assert forall|k: u64| !#[trigger] self@.contains_key(k) by {
            if self@.contains_key(k) {
                self.lemma_view_dom();
                let j = self.sync_index_map@[k].0 as int;
                assert(self.items@[j] is Occupied);
            }
        }
        assert(self@ =~= Map::<u64, T>::empty());
    }

    /// Takes the object out of the first occupied slot at or after `start`,
    /// leaving the slot marked as detached: off the free list, with the
    /// generation unchanged. Returns the slot, the object's generation, its
    /// sync id and the object.
    pub(crate) fn detach_from(&mut self, start: usize) -> (r: Option<(usize, u32, u64, T)>)
        requires
            old(self).wf(),
        ensures
            final(self).wf(),
            final(self).spec_generation() == old(self).spec_generation(),
            final(self).room() == old(self).room(),
            r is None ==> *final(self) == *old(self) && old(self).empty_from(start as int),
            r matches Some(q) ==> {
                &&& start <= q.0
                &&& old(self)@.contains_key(q.2)
                &&& q.3 == old(self)@[q.2]
                &&& final(self)@ == old(self)@.remove(q.2)
                &&& final(self).can_reattach(q.0, q.1, q.2)
                &&& final(self).located(raw_handle(q.0 as u32, q.1, q.2)) is None
                &&& old(self).located(raw_handle(q.0 as u32, q.1, q.2)) == Some(q.2)
                &&& old(self).occupant(q.0 as u32) == Some(q.2)
                &&& old(self).empty_range(start as int, q.0 as int)
                &&& final(self).is_detached(q.0)
            },
            old(self).empty_below(start as int) && r is Some ==> final(self).empty_below(
                r->Some_0.0 + 1,
            ),
    {
        match self.first_occupied_from(start) {
            None => None,
            Some(j) => {
                let ghost before = self.items@;
                let r = self.detach_at(j);
                proof {
                    if old(self).empty_below(start as int) {
                        assert forall|l: int| 0 <= l < j + 1 && l < self.items@.len() implies !(
                        #[trigger] self.items@[l] is Occupied) by {
                            if l != j {
                                assert(self.items@[l] == before[l]);
                                if l < start {
                                    assert(!(before[l] is Occupied));
                                }
                            }
                        }
                    }
                }
                r
            },
        }
    }

    /// The first slot at or after `start` that holds an object.
    fn first_occupied_from(&self, start: usize) -> (r: Option<usize>)
        requires
            self.wf(),
        ensures
            r is None ==> self.empty_from(start as int),
            r matches Some(j) ==> start <= j < self.items@.len() && self.items@[j as int] is Occupied,
            r matches Some(j) ==> forall|l: int| start <= l < j ==> !(#[trigger] self.items@[l] is Occupied),
    {
        let mut j: usize = start;
        while j < self.items.len()
            invariant
                start <= j,
                forall|l: int| start <= l < j ==> !(#[trigger] self.items@[l] is Occupied),
            decreases self.items@.len() - j,
        {
            match &self.items[j] {
                Entry::Occupied { .. } => {
                    return Some(j);
                },
                Entry::Free { .. } => {},
            }
            j = j + 1;
        }
        None
    }

    /// Takes the object out of slot `j`, leaving the mark of a detached object.
    fn detach_at(&mut self, j: usize) -> (r: Option<(usize, u32, u64, T)>)
        requires
            old(self).wf(),
            j < old(self).items@.len(),
            old(self).items@[j as int] is Occupied,
        ensures
            final(self).wf(),
            final(self).spec_generation() == old(self).spec_generation(),
            final(self).room() == old(self).room(),
            r matches Some(q) ==> {
                &&& q.0 == j
                &&& old(self)@.contains_key(q.2)
                &&& q.3 == old(self)@[q.2]
                &&& final(self)@ == old(self)@.remove(q.2)
                &&& final(self).can_reattach(q.0, q.1, q.2)
                &&& final(self).located(raw_handle(q.0 as u32, q.1, q.2)) is None
                &&& old(self).located(raw_handle(q.0 as u32, q.1, q.2)) == Some(q.2)
                &&& old(self).occupant(q.0 as u32) == Some(q.2)
            },
            r is Some,
            final(self).items@.len() == old(self).items@.len(),
            forall|l: int| 0 <= l < old(self).items@.len() && l != j ==> final(self).items@[l] == old(self).items@[l],
    {
        proof {
            self.lemma_view_dom();
        }
        let ghost old_items = self.items@;
        let mut entry = Entry::Free { next_free: Some(DETACHED) };
        self.items.set_and_swap(j, &mut entry);
        match entry {
            Entry::Occupied { generation, sync_id, value } => {
                self.sync_index_map.remove(&sync_id);
                self.len = self.sync_index_map.len();
                proof {
                    let items = self.items@;
                    let fc = self.free_chain@;
                    assert(old_items[j as int] is Occupied);
                    assert forall|k: int| 0 <= k < fc.len() implies items[#[trigger] fc[k] as int]
                        == (Entry::<T>::Free { next_free: chain_next(fc, k) }) by {
                        assert(old_items[fc[k] as int] is Free);
                    }
                    let m = self.sync_index_map@;
                    let om = old(self).sync_index_map@;
                    assert forall|id: u64| #[trigger] m.contains_key(id) implies {
                        &&& (m[id].0 as int) < items.len()
                        &&& items[m[id].0 as int] is Occupied
                        &&& gen_of(items[m[id].0 as int]) == m[id].1
                        &&& id_of(items[m[id].0 as int]) == id
                    } by {
                        assert(om.contains_key(id));
                        assert(om[id].0 != j as u32);
                    }
                    assert forall|l: int| 0 <= l < items.len() && (#[trigger] items[l]) is Occupied implies {
                        &&& m.contains_key(id_of(items[l]))
                        &&& m[id_of(items[l])] == (l as u32, gen_of(items[l]))
                    } by {
                        assert(items[l] == old_items[l]);
                        assert(id_of(items[l]) != sync_id);
                    }
                    assert(self@ =~= old(self)@.remove(sync_id));
                }
                Some((j, generation, sync_id, value))
            },
            Entry::Free { .. } => None,
        }
    }

    /// Puts a detached object back into its slot, under its generation and
    /// sync id; gives it back when the slot can no longer take it.
    pub(crate) fn reattach(&mut self, idx: usize, generation: u32, sync_id: u64, value: T) -> (r:
        Result<(), T>)
        requires
            old(self).wf(),
        ensures
            final(self).wf(),
            final(self).spec_generation() == old(self).spec_generation(),
            r is Ok <==> old(self).can_reattach(idx, generation, sync_id),
            r matches Err(v) ==> v == value && *final(self) == *old(self),
            r is Ok ==> final(self)@ == old(self)@.insert(sync_id, value) && final(self).room()
                == old(self).room() && final(self).located(raw_handle(idx as u32, generation, sync_id))
                == Some(sync_id),
    {
        proof {
            self.lemma_view_dom();
        }
        if idx >= self.items.len() || generation > self.generation || self.sync_index_map.contains_key(&sync_id) {
            return Err(value);
        }
        let marked = match &self.items[idx] {
            Entry::Free { next_free: Some(n) } => *n == DETACHED,
            _ => false,
        };
        if !marked {
            return Err(value);
        }
        let ghost old_items = self.items@;
        self.items.set(idx, Entry::Occupied { generation, sync_id, value });
        self.sync_index_map.insert(sync_id, (idx as u32, generation));
        self.len = self.sync_index_map.len();
        proof {
            let items = self.items@;
            let fc = self.free_chain@;
            assert forall|k: int| 0 <= k < fc.len() implies items[#[trigger] fc[k] as int] == (
            Entry::<T>::Free { next_free: chain_next(fc, k) }) by {
                if fc[k] as int == idx as int {
                    assert(old_items[fc[k] as int] == (Entry::<T>::Free { next_free: chain_next(fc, k) }));
                    if k + 1 < fc.len() {
                        assert((fc[k + 1] as int) < old_items.len());
                    }
                    assert(false);
                }
            }
            let m = self.sync_index_map@;
            let om = old(self).sync_index_map@;
            assert forall|id: u64| #[trigger] m.contains_key(id) implies {
                &&& (m[id].0 as int) < items.len()
                &&& items[m[id].0 as int] is Occupied
                &&& gen_of(items[m[id].0 as int]) == m[id].1
                &&& id_of(items[m[id].0 as int]) == id
            } by {
                if id != sync_id {
                    assert(om.contains_key(id));
                    assert(om[id].0 != idx as u32);
                }
            }
            assert forall|l: int| 0 <= l < items.len() && (#[trigger] items[l]) is Occupied implies {
                &&& m.contains_key(id_of(items[l]))
                &&& m[id_of(items[l])] == (l as u32, gen_of(items[l]))
            } by {
                if l != idx as int {
                    assert(items[l] == old_items[l]);
                }
            }
            assert(self@ =~= old(self)@.insert(sync_id, value));
        }
        Ok(())
    }

    /// Frees a detached slot for good: it goes to the head of the free list
    /// and the generation goes up, as on a removal. Does nothing when the
    /// slot is not marked as detached.
    pub(crate) fn release_detached(&mut self, idx: usize)
        requires
            old(self).wf(),
        ensures
            final(self).wf(),
            final(self)@ == old(self)@,
            final(self).spec_generation() >= old(self).spec_generation(),
            old(self).is_detached(idx) ==> final(self).spec_generation() == bumped(old(self).spec_generation())
                && final(self).room() == old(self).room() + 1,
            !old(self).is_detached(idx) ==> *final(self) == *old(self),
            forall|j: u32| #[trigger] final(self).occupant(j) == old(self).occupant(j),
            forall|h: Index| #[trigger] final(self).located(h) == old(self).located(h),
            forall|a: int| #[trigger] final(self).empty_from(a) == old(self).empty_from(a),
            forall|a: int, b: int| #[trigger] final(self).empty_range(a, b) == old(self).empty_range(a, b),
    {
        if idx >= self.items.len() {
            return;
        }
        let marked = match &self.items[idx] {
            Entry::Free { next_free: Some(n) } => *n == DETACHED,
            _ => false,
        };
        if !marked {
            return;
        }
        let ghost old_items = self.items@;
        let ghost fc = self.free_chain@;
        self.items.set(idx, Entry::Free { next_free: self.free_list_head });
        self.free_list_head = Some(idx as u32);
        self.free_chain = Ghost(seq![idx as u32] + fc);
        self.generation = if self.generation < u32::MAX {
            self.generation + 1
        } else {
            self.generation
        };
        proof {
            let items = self.items@;
            let nfc = self.free_chain@;
            assert(!fc.contains(idx as u32)) by {
                if fc.contains(idx as u32) {
                    let k = choose|k: int| 0 <= k < fc.len() && fc[k] == idx as u32;
                    assert(old_items[fc[k] as int] == (Entry::<T>::Free { next_free: chain_next(fc, k) }));
                    if k + 1 < fc.len() {
                        assert((fc[k + 1] as int) < old_items.len());
                    }
                }
            }
            assert forall|k: int| 0 <= k < nfc.len() implies items[#[trigger] nfc[k] as int]
                == (Entry::<T>::Free { next_free: chain_next(nfc, k) }) by {
                if k > 0 {
                    assert(nfc[k] == fc[k - 1]);
                    assert(fc[k - 1] != idx as u32);
                    if k + 1 < nfc.len() {
                        assert(nfc[k + 1] == fc[k]);
                    }
                } else if fc.len() > 0 {
                    assert(nfc[1] == fc[0]);
                }
            }
            assert forall|k: int| 0 <= k < nfc.len() implies (#[trigger] nfc[k] as int) < items.len() by {
                if k > 0 {
                    assert(nfc[k] == fc[k - 1]);
                }
            }
            assert forall|a: int, b: int|
                0 <= a < nfc.len() && 0 <= b < nfc.len() && a != b implies nfc[a] != nfc[b] by {
                if a > 0 && b > 0 {
                    assert(fc[a - 1] != fc[b - 1]);
                } else if a > 0 {
                    assert(nfc[a] == fc[a - 1]);
                } else if b > 0 {
                    assert(nfc[b] == fc[b - 1]);
                }
            }
            let m = self.sync_index_map@;
            assert forall|id: u64| #[trigger] m.contains_key(id) implies {
                &&& (m[id].0 as int) < items.len()
                &&& items[m[id].0 as int] is Occupied
                &&& gen_of(items[m[id].0 as int]) == m[id].1
                &&& id_of(items[m[id].0 as int]) == id
            } by {
                assert(m[id].0 != idx as u32);
            }
            assert forall|l: int| 0 <= l < items.len() && (#[trigger] items[l]) is Occupied implies {
                &&& m.contains_key(id_of(items[l]))
                &&& m[id_of(items[l])] == (l as u32, gen_of(items[l]))
            } by {
                assert(items[l] == old_items[l]);
            }
            assert(self@ =~= old(self)@);
            assert forall|j: int| 0 <= j < items.len() implies (#[trigger] items[j] is Occupied) == (
            old_items[j] is Occupied) && (items[j] is Occupied ==> items[j] == old_items[j]) by {
                if j == idx as int {
                    assert(old_items[j] is Free);
                }
            }
            assert forall|j: u32| #[trigger] self.occupant(j) == old(self).occupant(j) by {
                if (j as int) < items.len() {
                    assert(items[j as int] is Occupied == old_items[j as int] is Occupied);
                }
            }
            assert forall|h: Index| #[trigger] self.located(h) == old(self).located(h) by {
                if (h.index as int) < items.len() {
                    assert(items[h.index as int] is Occupied == old_items[h.index as int] is Occupied);
                }
            }
            assert forall|a: int| #[trigger] self.empty_from(a) == old(self).empty_from(a) by {
                if self.empty_from(a) {
                    assert forall|j: int| a <= j < old_items.len() && 0 <= j implies !(#[trigger] old_items[j] is Occupied) by {
                        assert(!(items[j] is Occupied));
                    }
                }
                if old(self).empty_from(a) {
                    assert forall|j: int| a <= j < items.len() && 0 <= j implies !(#[trigger] items[j] is Occupied) by {
                        assert(!(old_items[j] is Occupied));
                    }
                }
            }
            assert forall|a: int, b: int| #[trigger] self.empty_range(a, b) == old(self).empty_range(a, b) by {
                if self.empty_range(a, b) {
                    assert forall|j: int| a <= j < b && 0 <= j < old_items.len() implies !(#[trigger] old_items[j] is Occupied) by {
                        assert(!(items[j] is Occupied));
                    }
                }
                if old(self).empty_range(a, b) {
                    assert forall|j: int| a <= j < b && 0 <= j < items.len() implies !(#[trigger] items[j] is Occupied) by {
                        assert(!(old_items[j] is Occupied));
                    }
                }
            }
        }
    }

    /// The arena-wide generation counter.
    pub fn generation(&self) -> (r: u32)
        ensures
            r == self.spec_generation(),
    {
        self.generation
    }

    /// The number of slots.
    pub fn capacity(&self) -> (r: usize)
        ensures
            r == self.spec_capacity(),
    {
        self.items.len()
    }

    /// The number of objects.
    pub fn len(&self) -> (r: usize)
        requires
            self.wf(),
        ensures
            r == self@.len(),
    {
        proof {
            self.lemma_view_dom();
        }
        self.len
    }

    pub fn is_empty(&self) -> (r: bool)
        requires
            self.wf(),
        ensures
            r == (self@.len() == 0),
    {
        proof {
            self.lemma_view_dom();
        }
        self.len == 0
    }
}

impl<T: Diff> SyncArena<T> {
    /// The objects of `self` that `other` changed, each with its delta, and
    /// those that `other` lacks.
    fn changed_and_removed(&self, other: &SyncArena<T>) -> (r: (Vec<(u64, T::Repr)>, Vec<u64>))
        requires
            self.wf(),
            other.wf(),
        ensures
            keys_distinct(r.0@),
            forall|t: int|
                0 <= t < r.0@.len() ==> {
                    let k = (#[trigger] r.0@[t]).0;
                    &&& self@.contains_key(k)
                    &&& other@.contains_key(k)
                    &&& self.model()[k] != other.model()[k]
                    &&& r.0@[t].1 == T::delta(self.model()[k], other.model()[k])
                },
            forall|t: int|
                0 <= t < r.1@.len() ==> {
                    let k = #[trigger] r.1@[t];
                    &&& self@.contains_key(k)
                    &&& !other@.contains_key(k)
                },
            forall|k: u64|
                #[trigger] self@.contains_key(k) ==> {
                    &&& (other@.contains_key(k) && self.model()[k] != other.model()[k]) ==> exists|t: int|
                        0 <= t < r.0@.len() && (#[trigger] r.0@[t]).0 == k
                    &&& !other@.contains_key(k) ==> r.1@.contains(k)
                },
    {
        proof {
            self.lemma_view_dom();
            other.lemma_view_dom();
        }
        let mut altered: Vec<(u64, T::Repr)> = Vec::new();
        let mut removed: Vec<u64> = Vec::new();
        let mut j: usize = 0;
        while j < self.items.len()
            invariant
                self.wf(),
                other.wf(),
                self@.dom() == self.sync_index_map@.dom(),
                other@.dom() == other.sync_index_map@.dom(),
                0 <= j <= self.items@.len(),
                keys_distinct(altered@),
                forall|t: int|
                    0 <= t < altered@.len() ==> {
                        let k = (#[trigger] altered@[t]).0;
                        &&& self@.contains_key(k)
                        &&& other@.contains_key(k)
                        &&& self.model()[k] != other.model()[k]
                        &&& altered@[t].1 == T::delta(self.model()[k], other.model()[k])
                        &&& (self.sync_index_map@[k].0 as int) < j
                    },
                forall|t: int|
                    0 <= t < removed@.len() ==> {
                        let k = #[trigger] removed@[t];
                        &&& self@.contains_key(k)
                        &&& !other@.contains_key(k)
                    },
                forall|k: u64|
                    #[trigger] self@.contains_key(k) && (self.sync_index_map@[k].0 as int) < j ==> {
                        &&& (other@.contains_key(k) && self.model()[k] != other.model()[k])
                            ==> exists|t: int| 0 <= t < altered@.len() && (#[trigger] altered@[t]).0 == k
                        &&& !other@.contains_key(k) ==> removed@.contains(k)
                    },
            decreases self.items@.len() - j,
        {
            let ghost altered0 = altered@;
            let ghost removed0 = removed@;
            let entry = &self.items[j];
            match entry {
                Entry::Occupied { sync_id, value, .. } => {
                    let k = *sync_id;
                    proof {
                        assert(self.items@[j as int] is Occupied);
                        assert(self.sync_index_map@[k] == (j as u32, gen_of(self.items@[j as int])));
                        assert(self@[k] == *value);
                    }
                    let mut h = Index::from_sync_id(k);
                    match other.get(&mut h) {
                        Some(other_value) => {
                            if !value.same(other_value) {
                                let d = value.diff(other_value);
                                proof {
                                    assert forall|t: int| 0 <= t < altered@.len() implies (#[trigger] altered@[t]).0 != k by {
                                        assert((self.sync_index_map@[altered@[t].0].0 as int) < j);
                                    }
                                }
                                altered.push((k, d));
                                proof {
                                    assert(altered@[altered@.len() - 1].0 == k);
                                }
                            }
                        },
                        None => {
                            removed.push(k);
                            proof {
                                assert(removed@[removed@.len() - 1] == k);
                            }
                        },
                    }
                },
                Entry::Free { .. } => {},
            }
            proof {
                assert forall|k: u64|
                    #[trigger] self@.contains_key(k) && (self.sync_index_map@[k].0 as int) < j + 1 implies {
                        &&& (other@.contains_key(k) && self.model()[k] != other.model()[k])
                            ==> exists|t: int| 0 <= t < altered@.len() && (#[trigger] altered@[t]).0 == k
                        &&& !other@.contains_key(k) ==> removed@.contains(k)
                    } by {
                    if (self.sync_index_map@[k].0 as int) == j {
                        assert(self.items@[j as int] is Occupied);
                        assert(id_of(self.items@[j as int]) == k);
                        if other@.contains_key(k) && self.model()[k] != other.model()[k] {
                            assert(altered@[altered@.len() - 1].0 == k);
                        }
                        if !other@.contains_key(k) {
                            assert(removed@[removed@.len() - 1] == k);
                        }
                    } else {
                        if other@.contains_key(k) && self.model()[k] != other.model()[k] {
                            let t = choose|t: int| 0 <= t < altered0.len() && (#[trigger] altered0[t]).0 == k;
                            assert(altered@[t] == altered0[t]);
                        }
                        if !other@.contains_key(k) {
                            assert(removed0.contains(k));
                            let t = choose|t: int| 0 <= t < removed0.len() && removed0[t] == k;
                            assert(removed@[t] == removed0[t]);
                        }
                    }
                }
            }
            j = j + 1;
        }
        proof {
            assert forall|k: u64| #[trigger] self@.contains_key(k) implies {
                &&& (other@.contains_key(k) && self.model()[k] != other.model()[k]) ==> exists|t: int|
                    0 <= t < altered@.len() && (#[trigger] altered@[t]).0 == k
                &&& !other@.contains_key(k) ==> removed@.contains(k)
            } by {
                assert(self.sync_index_map@.contains_key(k));
            }
        }
        (altered, removed)
    }

    /// Appends to `altered` each object that only `other` has, with its delta
    /// from the neutral value.
    fn append_added(&self, other: &SyncArena<T>, altered: &mut Vec<(u64, T::Repr)>)
        requires
            self.wf(),
            other.wf(),
            keys_distinct(old(altered)@),
            forall|t: int| 0 <= t < old(altered)@.len() ==> self@.contains_key((#[trigger] old(altered)@[t]).0),
        ensures
            keys_distinct(final(altered)@),
            final(altered)@.len() >= old(altered)@.len(),
            forall|t: int| 0 <= t < old(altered)@.len() ==> final(altered)@[t] == old(altered)@[t],
            forall|t: int|
                old(altered)@.len() <= t < final(altered)@.len() ==> {
                    let k = (#[trigger] final(altered)@[t]).0;
                    &&& !self@.contains_key(k)
                    &&& other@.contains_key(k)
                    &&& final(altered)@[t].1 == T::delta(T::neutral(), other.model()[k])
                },
            forall|k: u64|
                !self@.contains_key(k) && #[trigger] other@.contains_key(k) ==> exists|t: int|
                    0 <= t < final(altered)@.len() && (#[trigger] final(altered)@[t]).0 == k,
    {
        proof {
            self.lemma_view_dom();
            other.lemma_view_dom();
        }
        let ghost first = altered@.len();
        let mut j: usize = 0;
        while j < other.items.len()
            invariant
                self.wf(),
                other.wf(),
                self@.dom() == self.sync_index_map@.dom(),
                other@.dom() == other.sync_index_map@.dom(),
                0 <= j <= other.items@.len(),
                first == old(altered)@.len(),
                first <= altered@.len(),
                keys_distinct(altered@),
                forall|t: int| 0 <= t < first ==> altered@[t] == old(altered)@[t],
                forall|t: int| 0 <= t < first ==> self@.contains_key((#[trigger] altered@[t]).0),
                forall|t: int|
                    first <= t < altered@.len() ==> {
                        let k = (#[trigger] altered@[t]).0;
                        &&& !self@.contains_key(k)
                        &&& other@.contains_key(k)
                        &&& altered@[t].1 == T::delta(T::neutral(), other.model()[k])
                        &&& (other.sync_index_map@[k].0 as int) < j
                    },
                forall|k: u64|
                    !self@.contains_key(k) && #[trigger] other@.contains_key(k) && (other.sync_index_map@[k].0 as int) < j
                        ==> exists|t: int| 0 <= t < altered@.len() && (#[trigger] altered@[t]).0 == k,
            decreases other.items@.len() - j,
        {
            let ghost altered0 = altered@;
            let entry = &other.items[j];
            match entry {
                Entry::Occupied { sync_id, value, .. } => {
                    let k = *sync_id;
                    proof {
                        assert(other.items@[j as int] is Occupied);
                        assert(other.sync_index_map@[k] == (j as u32, gen_of(other.items@[j as int])));
                        assert(other@[k] == *value);
                    }
                    let mut h = Index::from_sync_id(k);
                    if self.get(&mut h).is_none() {
                        let d = T::identity().diff(value);
                        proof {
                            assert forall|t: int| 0 <= t < altered@.len() implies (#[trigger] altered@[t]).0 != k by {
                                if t >= first {
                                    assert((other.sync_index_map@[altered@[t].0].0 as int) < j);
                                }
                            }
                        }
                        altered.push((k, d));
                        proof {
                            assert(altered@[altered@.len() - 1].0 == k);
                        }
                    }
                },
                Entry::Free { .. } => {},
            }
            proof {
                assert forall|k: u64|
                    !self@.contains_key(k) && #[trigger] other@.contains_key(k) && (other.sync_index_map@[k].0 as int) < j + 1
                        implies exists|t: int| 0 <= t < altered@.len() && (#[trigger] altered@[t]).0 == k by {
                    if (other.sync_index_map@[k].0 as int) == j {
                        assert(other.items@[j as int] is Occupied);
                        assert(id_of(other.items@[j as int]) == k);
                        assert(altered@[altered@.len() - 1].0 == k);
                    } else {
                        let t = choose|t: int| 0 <= t < altered0.len() && (#[trigger] altered0[t]).0 == k;
                        assert(altered@[t] == altered0[t]);
                    }
                }
            }
            j = j + 1;
        }
        proof {
            assert forall|k: u64|
                !self@.contains_key(k) && #[trigger] other@.contains_key(k) implies exists|t: int|
                    0 <= t < altered@.len() && (#[trigger] altered@[t]).0 == k by {
                assert(other.sync_index_map@.contains_key(k));
            }
        }
    }

    /// The delta from `self` to `other`, matched by sync id: objects of both
    /// whose views differ, objects only in `other` (from the neutral value),
    /// and the sync ids of objects only in `self`.
    pub fn diff(&self, other: &SyncArena<T>) -> (r: SyncArenaDiff<T>)
        requires
            self.wf(),
            other.wf(),
        ensures
            r.wf(),
            r.removed_set() == removed_between(self.model(), other.model()),
            r.altered_map() == altered_between::<T>(self.model(), other.model()),
            r.is_empty_delta() <==> self.model() == other.model(),
            r.altered@.len() <= other@.len(),
    {
        let (mut altered, removed) = self.changed_and_removed(other);
        let ghost first = altered@.len();
        let ghost altered0 = altered@;
        self.append_added(other, &mut altered);
        let ghost altered1 = altered@;
        let r = SyncArenaDiff { altered, removed };
        proof {
            self.lemma_view_dom();
            other.lemma_view_dom();
            assert(self.model().dom() =~= self@.dom());
            assert(other.model().dom() =~= other@.dom());
            assert forall|t: int| 0 <= t < first implies {
                let k = (#[trigger] r.altered@[t]).0;
                &&& self.model().contains_key(k)
                &&& other.model().contains_key(k)
                &&& self.model()[k] != other.model()[k]
                &&& r.altered@[t].1 == T::delta(self.model()[k], other.model()[k])
            } by {
                assert(r.altered@[t] == altered0[t]);
            }
            assert forall|k: u64| #[trigger] self.model().contains_key(k) implies {
                &&& (other.model().contains_key(k) && self.model()[k] != other.model()[k]) ==> exists|t: int|
                    0 <= t < r.altered@.len() && (#[trigger] r.altered@[t]).0 == k
                &&& !other.model().contains_key(k) ==> r.removed@.contains(k)
            } by {
                assert(self@.contains_key(k));
                if other.model().contains_key(k) && self.model()[k] != other.model()[k] {
                    let t = choose|t: int| 0 <= t < altered0.len() && (#[trigger] altered0[t]).0 == k;
                    assert(r.altered@[t] == altered0[t]);
                }
            }
            assert forall|k: u64|
                !self.model().contains_key(k) && #[trigger] other.model().contains_key(k) implies exists|t: int|
                    0 <= t < r.altered@.len() && (#[trigger] r.altered@[t]).0 == k by {
                assert(other@.contains_key(k));
                assert(!self@.contains_key(k));
                let t = choose|t: int| 0 <= t < altered1.len() && (#[trigger] altered1[t]).0 == k;
                assert(r.altered@[t] == altered1[t]);
            }
            lemma_diff_result::<T>(self.model(), other.model(), r.altered@, r.removed@, first as int);
            assert forall|t: int| 0 <= t < r.altered@.len() implies other@.contains_key(
                #[trigger] r.altered@[t].0,
            ) by {
                if t < first {
                    assert(r.altered@[t] == altered0[t]);
                } else {
                    assert(r.altered@[t] == altered1[t]);
                }
            }
            crate::patch::lemma_distinct_keys_len(r.altered@, other@);
        }
        r
    }

    /// The delta of `diff`, limited to what the local peer may send: changes
    /// and removals only of objects whose sync id is in `owned`; new objects
    /// always.
    pub fn diff_owned(&self, other: &SyncArena<T>, owned: &Vec<u64>) -> (r: SyncArenaDiff<T>)
        requires
            self.wf(),
            other.wf(),
        ensures
            r.wf(),
            r.removed_set() == removed_between(self.model(), other.model()).intersect(
                owned@.to_set(),
            ),
            r.altered_map() == altered_between::<T>(self.model(), other.model()).restrict(
                sendable(self.model().dom(), owned@.to_set()),
            ),
            r.altered@.len() <= other@.len(),
    {
        let full = self.diff(other);
        let SyncArenaDiff { altered, removed } = full;
        let altered = keep_sendable(altered, &self.sync_index_map, owned);
        let removed = keep_owned(&removed, owned);
        proof {
            self.lemma_view_dom();
            assert(self.model().dom() =~= self.sync_index_map@.dom());
        }
        SyncArenaDiff { altered, removed }
    }

    /// Removes the objects under the given sync ids; an absent one is
    /// passed over.
    #[verifier::rlimit(60)]
    pub fn apply_removals(&mut self, removed: &Vec<u64>)
        requires
            old(self).wf(),
        ensures
            final(self).wf(),
            final(self).model() == old(self).model().remove_keys(removed@.to_set()),
            final(self).room() >= old(self).room(),
            final(self).spec_generation() == bumped_by(
                old(self).spec_generation(),
                old(self)@.dom().intersect(removed@.to_set()).len(),
            ),
            removed@.len() == 0 ==> *final(self) == *old(self),
    {
        let ghost om = old(self).model();
        let ghost odom = old(self)@.dom();
        let ghost mut gone: Set<u64> = Set::empty();
        proof {
            old(self).lemma_finite();
            assert(odom.intersect(gone) =~= Set::<u64>::empty());
        }
        if removed.len() == 0 {
            proof {
                assert(removed@.to_set() =~= Set::<u64>::empty());
                assert(old(self).model().remove_keys(removed@.to_set()) =~= old(self).model());
            }
            return;
        }
        let mut j: usize = 0;
        while j < removed.len()
            invariant
                self.wf(),
                0 <= j <= removed@.len(),
                self.room() >= old(self).room(),
                odom == old(self)@.dom(),
                odom.finite(),
                self.spec_generation() == bumped_by(
                    old(self).spec_generation(),
                    odom.intersect(gone).len(),
                ),
                self.model() == om.remove_keys(gone),
                self@.dom() == odom.difference(gone),
                forall|x: u64| gone.contains(x) <==> exists|t: int| 0 <= t < j && removed@[t] == x,
            decreases removed@.len() - j,
        {
            let k = removed[j];
            let ghost before = self.model();
            let ghost before_view = self@;
            let mut h = Index::from_sync_id(k);
            let present = self.contains(&mut h);
            if present {
                self.remove(h);
                proof {
                    assert(self.model() =~= before.remove(k));
                }
            }
            proof {
                let gone0 = gone;
                gone = gone.insert(k);
                assert(self.model() =~= om.remove_keys(gone));
                assert(self@.dom() =~= odom.difference(gone));
                if present {
                    assert(odom.contains(k) && !gone0.contains(k));
                    assert(odom.intersect(gone) =~= odom.intersect(gone0).insert(k));
                } else {
                    assert(odom.intersect(gone) =~= odom.intersect(gone0));
                }
                assert forall|x: u64| gone.contains(x) <==> exists|t: int| 0 <= t < j + 1 && removed@[t] == x by {
                    if gone0.contains(x) {
                        let t = choose|t: int| 0 <= t < j && removed@[t] == x;
                        assert(0 <= t < j + 1 && removed@[t] == x);
                    }
                    if x == k {
                        assert(removed@[j as int] == x);
                    }
                }
            }
            j = j + 1;
        }
        proof {
            assert(gone =~= removed@.to_set());
        }
    }

    /// Patches each altered object in place, or, when absent, makes it from
    /// the neutral value and inserts it under its sync id.
    #[verifier::rlimit(60)]
    pub fn apply_altered(&mut self, altered: &Vec<(u64, T::Repr)>)
        requires
            old(self).wf(),
            keys_distinct(altered@),
            old(self).room() >= altered@.len(),
        ensures
            final(self).wf(),
            final(self).model() == patch_model::<T>(old(self).model(), Set::empty(), pairs_map(altered@)),
            final(self).spec_generation() == old(self).spec_generation(),
            altered@.len() == 0 ==> *final(self) == *old(self),
    {
        if altered.len() == 0 {
            proof {
                assert(pairs_map(altered@) =~= Map::<u64, T::Repr>::empty());
                assert(old(self).model().remove_keys(Set::empty()) =~= old(self).model());
                assert(patch_model::<T>(old(self).model(), Set::empty(), Map::empty())
                    =~= old(self).model());
            }
            return;
        }
        let ghost om = old(self).model();
        let ghost gone: Set<u64> = Set::empty();
        proof {
            assert(om.remove_keys(gone) =~= om);
            assert(patch_model::<T>(om, gone, Map::empty()) =~= om);
        }
        let ghost mut done: Map<u64, T::Repr> = Map::empty();
        let mut j: usize = 0;
        while j < altered.len()
            invariant
                self.wf(),
                keys_distinct(altered@),
                0 <= j <= altered@.len(),
                self.room() >= altered@.len() - j,
                self.spec_generation() == old(self).spec_generation(),
                self.model() == patch_model::<T>(om, gone, done),
                gone == Set::<u64>::empty(),
                forall|k: u64|
                    #[trigger] done.contains_key(k) <==> exists|t: int| 0 <= t < j && altered@[t].0 == k,
                forall|t: int| 0 <= t < j ==> done[(#[trigger] altered@[t]).0] == altered@[t].1,
            decreases altered@.len() - j,
        {
            let k = altered[j].0;
            let delta = &altered[j].1;
            let ghost before = self.model();
            proof {
                assert(!done.contains_key(k)) by {
                    if done.contains_key(k) {
                        let t = choose|t: int| 0 <= t < j && altered@[t].0 == k;
                        assert(altered@[t].0 == altered@[j as int].0);
                    }
                }
                lemma_patch_step::<T>(om, gone, done, k, *delta);
                self.lemma_view_dom();
            }
            let mut h = Index::from_sync_id(k);
            if self.contains(&mut h) {
                match self.get_mut(&mut h) {
                    Some(v) => {
                        v.apply(delta);
                    },
                    None => {},
                }
                proof {
                    assert(self.model() =~= before.insert(k, T::patched(before[k], *delta)));
                }
            } else {
                let value = T::identity().apply_new(delta);
                self.insert_with_known_sync_id(value, k);
                proof {
                    assert(self.model() =~= before.insert(k, T::patched(T::neutral(), *delta)));
                }
            }
            proof {
                let done0 = done;
                done = done.insert(k, *delta);
                assert forall|x: u64| #[trigger] done.contains_key(x) <==> exists|t: int|
                    0 <= t < j + 1 && altered@[t].0 == x by {
                    if done0.contains_key(x) {
                        let t = choose|t: int| 0 <= t < j && altered@[t].0 == x;
                        assert(0 <= t < j + 1 && altered@[t].0 == x);
                    }
                    if x == k {
                        assert(altered@[j as int].0 == x);
                    }
                }
                assert forall|t: int| 0 <= t < j + 1 implies done[(#[trigger] altered@[t]).0] == altered@[t].1 by {
                    if t < j {
                        assert(altered@[t].0 != k);
                    }
                }
            }
            j = j + 1;
        }
        proof {
            assert forall|k: u64| #[trigger] done.contains_key(k) <==> pairs_map(altered@).contains_key(k) by {
                if done.contains_key(k) {
                    let t = choose|t: int| 0 <= t < j && altered@[t].0 == k;
                    assert(altered@[t].0 == k);
                }
                if pairs_map(altered@).contains_key(k) {
                    let t = choose|t: int| 0 <= t < altered@.len() && (#[trigger] altered@[t]).0 == k;
                    assert(altered@[t].0 == k);
                }
            }
            assert forall|k: u64| #[trigger] done.contains_key(k) implies done[k] == pairs_map(altered@)[k] by {
                let t = choose|t: int| 0 <= t < altered@.len() && (#[trigger] altered@[t]).0 == k;
                assert(altered@[t].0 == k);
            }
            assert(done =~= pairs_map(altered@));
        }
    }

    /// Replays a delta: first the removed objects go (an absent one is
    /// passed over), then each altered object is patched in place, or, when
    /// absent, made from the neutral value and inserted under its sync id.
    pub fn apply(&mut self, d: &SyncArenaDiff<T>)
        requires
            old(self).wf(),
            d.wf(),
            old(self).room() >= d.altered@.len(),
        ensures
            final(self).wf(),
            final(self).model() == patch_model::<T>(
                old(self).model(),
                d.removed_set(),
                d.altered_map(),
            ),
            final(self).spec_generation() == bumped_by(
                old(self).spec_generation(),
                old(self)@.dom().intersect(d.removed_set()).len(),
            ),
            d.is_empty_delta() ==> *final(self) == *old(self),
    {
        self.apply_removals(&d.removed);
        self.apply_altered(&d.altered);
        proof {
            lemma_patch_after_removal::<T>(old(self).model(), d.removed_set(), d.altered_map());
        }
    }

    /// An empty arena, the neutral value of arenas.
    pub fn identity() -> (r: SyncArena<T>)
        ensures
            r.wf(),
            r@ == Map::<u64, T>::empty(),
            r.model() == Map::<u64, T::V>::empty(),
            r.room() == MAX_SLOTS,
    {
        let r = SyncArena::new();
        proof {
            assert(r.model() =~= Map::<u64, T::V>::empty());
        }
        r
    }
}

/// A walk over the objects of an arena in slot order, passing over free
/// slots. The order is that of the slots, not of insertion.
pub struct Iter<'a, T> {
    arena: &'a SyncArena<T>,
    pos: usize,
}

impl<'a, T> Iter<'a, T> {
    /// The arena walked over.
    pub closed spec fn source(&self) -> SyncArena<T> {
        *self.arena
    }

    /// The first slot not walked over yet.
    pub closed spec fn position(&self) -> int {
        self.pos as int
    }

    /// The object of the next occupied slot, with its handle.
    pub fn next(&mut self) -> (r: Option<(Index, &'a T)>)
        requires
            old(self).source().wf(),
        ensures
            final(self).source() == old(self).source(),
            r is None ==> old(self).source().empty_from(old(self).position()),
            r matches Some(p) ==> {
                &&& old(self).source()@.contains_key(p.0.spec_sync_id())
                &&& *p.1 == old(self).source()@[p.0.spec_sync_id()]
                &&& old(self).source().resolve(p.0) == Some(p.0.spec_sync_id())
                &&& old(self).position() <= p.0.spec_index() < final(self).position()
                &&& final(self).position() == p.0.spec_index() + 1
                &&& p.0.spec_synced()
                &&& old(self).source().located(p.0) == Some(p.0.spec_sync_id())
                &&& old(self).source().empty_range(old(self).position(), p.0.spec_index() as int)
            },
    {
        match self.arena.first_occupied_from(self.pos) {
            None => None,
            Some(j) => {
                self.pos = j + 1;
                match self.arena.get_unknown_gen(j as u32) {
                    Some((v, i)) => Some((i, v)),
                    None => None,
                }
            },
        }
    }
}

impl<T> SyncArena<T> {
    /// A walk over the objects in slot order.
    pub fn iter(&self) -> (r: Iter<'_, T>)
        ensures
            r.source() == *self,
            r.position() == 0,
    {
        Iter { arena: self, pos: 0 }
    }
}

/// The objects of an arena, taken out one by one in slot order; see
/// `SyncArena::drain`.
pub struct Drain<T> {
    arena: SyncArena<T>,
    pos: usize,
}

impl<T> Drain<T> {
    /// The objects not taken out yet.
    pub closed spec fn remaining(&self) -> Map<u64, T> {
        self.arena@
    }

    /// The arena that holds the objects not taken out yet.
    pub closed spec fn source(&self) -> SyncArena<T> {
        self.arena
    }

    pub closed spec fn wf(&self) -> bool {
        self.arena.wf() && self.arena.empty_below(self.pos as int)
    }

    /// The next object with its handle.
    pub fn next(&mut self) -> (r: Option<(Index, T)>)
        requires
            old(self).wf(),
        ensures
            final(self).wf(),
            r is None ==> old(self).remaining() == Map::<u64, T>::empty() && final(self).remaining()
                == old(self).remaining(),
            r matches Some(p) ==> {
                &&& old(self).remaining().contains_key(p.0.spec_sync_id())
                &&& p.1 == old(self).remaining()[p.0.spec_sync_id()]
                &&& final(self).remaining() == old(self).remaining().remove(p.0.spec_sync_id())
                &&& old(self).source().occupant(p.0.spec_index()) == Some(p.0.spec_sync_id())
                &&& old(self).source().empty_below(p.0.spec_index() as int)
            },
    {
        match self.arena.detach_from(self.pos) {
            None => {
                proof {
                    self.arena.lemma_empty_everywhere(self.pos as int);
                }
                None
            },
            Some((j, generation, sync_id, value)) => {
                proof {
                    let a = old(self).arena;
                    assert forall|l: int| 0 <= l < j && l < a.items@.len() implies !(
                    #[trigger] a.items@[l] is Occupied) by {
                        if l >= old(self).pos {
                            assert(a.empty_range(old(self).pos as int, j as int));
                        }
                    }
                }
                self.pos = j + 1;
                Some((Index { index: j as u32, generation, synced: true, sync_id }, value))
            },
        }
    }
}

/// The values of an arena in slot order; see `SyncArena::into_iter`.
pub struct IntoIter<T> {
    inner: Drain<T>,
}

impl<T> IntoIter<T> {
    /// The objects not taken out yet.
    pub closed spec fn remaining(&self) -> Map<u64, T> {
        self.inner.remaining()
    }

    pub closed spec fn wf(&self) -> bool {
        self.inner.wf()
    }

    /// The next value.
    pub fn next(&mut self) -> (r: Option<T>)
        requires
            old(self).wf(),
        ensures
            final(self).wf(),
            r is None ==> old(self).remaining() == Map::<u64, T>::empty(),
            r matches Some(v) ==> exists|k: u64|
                {
                    &&& #[trigger] old(self).remaining().contains_key(k)
                    &&& v == old(self).remaining()[k]
                    &&& final(self).remaining() == old(self).remaining().remove(k)
                },
    {
        match self.inner.next() {
            Some(p) => {
                proof {
                    assert(old(self).remaining().contains_key(p.0.spec_sync_id()));
                }
                Some(p.1)
            },
            None => None,
        }
    }
}

impl<T> SyncArena<T> {
    /// An arena without slots.
    fn without_slots(generation: u32) -> (r: SyncArena<T>)
        ensures
            r.wf(),
            r@ == Map::<u64, T>::empty(),
            r.spec_generation() == generation,
            r.spec_capacity() == 0,
            r.room() == MAX_SLOTS,
    {
        let r = SyncArena {
            items: Vec::new(),
            generation,
            free_list_head: None,
            len: 0,
            sync_index_map: HashMap::new(),
            free_chain: Ghost(Seq::empty()),
        };
        proof {
            assert(r@ =~= Map::<u64, T>::empty());
        }
        r
    }

    /// Takes every object out, leaving the arena without slots; the
    /// generation goes up, so that no earlier handle names a later object.
    pub fn drain(&mut self) -> (r: Drain<T>)
        requires
            old(self).wf(),
        ensures
            final(self).wf(),
            final(self)@ == Map::<u64, T>::empty(),
            final(self).spec_capacity() == 0,
            final(self).spec_generation() == bumped(old(self).spec_generation()),
            final(self).room() == MAX_SLOTS,
            r.wf(),
            r.remaining() == old(self)@,
    {
        let generation = if self.generation < u32::MAX {
            self.generation + 1
        } else {
            self.generation
        };
        let mut taken = SyncArena::without_slots(generation);
        core::mem::swap(self, &mut taken);
        Drain { arena: taken, pos: 0 }
    }

    /// The values in slot order.
    pub fn into_iter(self) -> (r: IntoIter<T>)
        requires
            self.wf(),
        ensures
            r.wf(),
            r.remaining() == self@,
    {
        IntoIter { inner: Drain { arena: self, pos: 0 } }
    }
}

impl<T> SyncArena<T> {
    /// An arena holding each value under its sync id, as a snapshot from a
    /// peer lists them; refused when a sync id occurs twice or there are
    /// more pairs than slots.
    pub fn from_pairs(pairs: Vec<(u64, T)>) -> (r: Result<SyncArena<T>, BuildError>)
        ensures
            r == Err::<SyncArena<T>, BuildError>(BuildError::TooMany) <==> pairs@.len() > MAX_SLOTS,
            r == Err::<SyncArena<T>, BuildError>(BuildError::DuplicateId) <==> pairs@.len()
                <= MAX_SLOTS && !keys_distinct(pairs@),
            r is Ok ==> {
                &&& r->Ok_0.wf()
                &&& forall|k: u64| #[trigger]
                    r->Ok_0@.contains_key(k) <==> exists|t: int|
                        0 <= t < pairs@.len() && pairs@[t].0 == k
                &&& forall|t: int|
                    0 <= t < pairs@.len() ==> r->Ok_0@[(#[trigger] pairs@[t]).0] == pairs@[t].1
            },
    {
        if pairs.len() > MAX_SLOTS {
            return Err(BuildError::TooMany);
        }
        let ghost input = pairs@;
        let n = pairs.len();
        let mut rest = pairs;
        proof {
            assert(rest@ == input);
        }
        let mut arena = SyncArena::new();
        while rest.len() > 0
            invariant
                input == pairs@,
                n == input.len() <= MAX_SLOTS,
                rest@.len() <= n,
                rest@ == input.subrange(0, rest@.len() as int),
                arena.wf(),
                arena.room() == MAX_SLOTS - (n - rest@.len()),
                forall|a: int, b: int|
                    rest@.len() <= a < n && rest@.len() <= b < n && a != b ==> input[a].0
                        != input[b].0,
                forall|k: u64| #[trigger]
                    arena@.contains_key(k) <==> exists|t: int|
                        rest@.len() <= t < n && input[t].0 == k,
                forall|t: int| rest@.len() <= t < n ==> arena@[(#[trigger] input[t]).0] == input[t].1,
            decreases rest@.len(),
        {
            let ghost m = rest@.len() - 1;
            let p = rest.pop().unwrap();
            proof {
                assert(p == input[m]);
                assert(rest@ =~= input.subrange(0, m));
            }
            let (k, v) = p;
            let mut h = Index::from_sync_id(k);
            if arena.contains(&mut h) {
                proof {
                    let t = choose|t: int| m + 1 <= t < n && input[t].0 == k;
                    assert(input[t].0 == input[m].0);
                    assert(!keys_distinct(input));
                }
                return Err(BuildError::DuplicateId);
            }
            let ghost before = arena@;
            arena.insert_with_known_sync_id(v, k);
            proof {
                assert forall|a: int, b: int|
                    m <= a < n && m <= b < n && a != b implies input[a].0 != input[b].0 by {
                    if a == m && b != m {
                        assert(before.contains_key(input[b].0));
                    } else if b == m && a != m {
                        assert(before.contains_key(input[a].0));
                    }
                }
                assert forall|kk: u64| #[trigger]
                    arena@.contains_key(kk) <==> exists|t: int| m <= t < n && input[t].0 == kk by {
                    if before.contains_key(kk) {
                        let t = choose|t: int| m + 1 <= t < n && input[t].0 == kk;
                        assert(m <= t < n);
                    }
                    if kk == k {
                        assert(input[m].0 == kk);
                    }
                    if exists|t: int| m <= t < n && input[t].0 == kk {
                        let t = choose|t: int| m <= t < n && input[t].0 == kk;
                        if t != m {
                            assert(before.contains_key(kk));
                        }
                    }
                }
                assert forall|t: int| m <= t < n implies arena@[(#[trigger] input[t]).0] == input[t].1 by {
                    if t != m {
                        assert(input[t].0 != input[m].0);
                    }
                }
            }
        }
        proof {
            assert(rest@.len() == 0);
            assert(keys_distinct(input));
        }
        Ok(arena)
    }
}

impl<T: Diff> SyncArena<T> {
    /// Replays a delta received from a peer, after checking what `apply`
    /// needs: that no object is altered twice, and that the arena can grow
    /// by as many objects as are altered. A refused delta changes nothing.
    pub fn apply_checked(&mut self, d: &SyncArenaDiff<T>) -> (r: Result<(), ApplyError>)
        requires
            old(self).wf(),
        ensures
            final(self).wf(),
            r == Err::<(), ApplyError>(ApplyError::AlteredTwice) <==> !d.wf(),
            d.wf() ==> (r == Err::<(), ApplyError>(ApplyError::NoRoom) <==> MAX_SLOTS
                - old(self).spec_capacity() < d.altered@.len()),
            r is Err ==> *final(self) == *old(self),
            r is Ok ==> final(self).model() == patch_model::<T>(
                old(self).model(),
                d.removed_set(),
                d.altered_map(),
            ),
    {
        if !distinct_keys(&d.altered) {
            return Err(ApplyError::AlteredTwice);
        }
        if MAX_SLOTS - self.capacity() < d.altered.len() {
            return Err(ApplyError::NoRoom);
        }
        proof {
            self.lemma_finite();
        }
        self.apply(d);
        Ok(())
    }
}

/// Round trip on arenas: the delta that `diff` returns from `a` to `b`,
/// replayed by `apply` on `a`, leaves an arena `c` with the model of `b`.
pub proof fn lemma_arena_round_trip<T: Diff>(
    a: SyncArena<T>,
    b: SyncArena<T>,
    d: SyncArenaDiff<T>,
    c: SyncArena<T>,
)
    requires
        d.removed_set() == removed_between(a.model(), b.model()),
        d.altered_map() == altered_between::<T>(a.model(), b.model()),
        c.model() == patch_model::<T>(a.model(), d.removed_set(), d.altered_map()),
    ensures
        c.model() == b.model(),
{
    lemma_round_trip::<T>(a.model(), b.model());
}

/// Identity stability: a handle that knows only a sync id that the arena
/// holds resolves to the object under that id, whatever slot it is in, and
/// the handle that the lookup fills in names that slot.
pub proof fn lemma_identity_stable<T>(a: SyncArena<T>, h: Index)
    requires
        a.wf(),
        !h.spec_synced(),
        a@.contains_key(h.spec_sync_id()),
    ensures
        a.resolve(h) == Some(h.spec_sync_id()),
        a.located(a.resolved(h)) == Some(h.spec_sync_id()),
{
    a.lemma_view_dom();
}

} // verus!
