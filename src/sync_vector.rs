use std::collections::HashMap;
use vstd::prelude::*;

use crate::diffable::Diff;
use crate::ids::{fresh_key, random_u64};
use crate::patch::{
    altered_between, keys_distinct, lemma_diff_result, lemma_patch_step, pairs_map, patch_model,
    removed_between,
};

verus! {

/// The name of an element of a `SyncVector`, the same in every process.
#[derive(Clone, Copy, Debug, PartialEq, Eq, Structural, Hash)]
pub struct SyncIndex {
    id: u64,
}

impl SyncIndex {
    pub closed spec fn spec_id(self) -> u64 {
        self.id
    }

    /// A random name.
    pub fn new() -> (r: SyncIndex) {
        SyncIndex { id: random_u64() }
    }

    /// The name with id `id`, as one received from a peer.
    pub fn from_id(id: u64) -> (r: SyncIndex)
        ensures
            r.spec_id() == id,
    {
        SyncIndex { id }
    }

    pub fn id(&self) -> (r: u64)
        ensures
            r == self.spec_id(),
    {
        self.id
    }
}

/// A vector whose elements are named by sync ids, in the order they were
/// added.
///
/// Its view maps each sync id to its element.
#[derive(Clone, Debug)]
pub struct SyncVector<T> {
    /// sync id -> position
    sync_map: HashMap<u64, usize>,
    /// The sync id of each position.
    ids: Vec<u64>,
    vec: Vec<T>,
}

impl<T> View for SyncVector<T> {
    type V = Map<u64, T>;

    closed spec fn view(&self) -> Map<u64, T> {
        self.sync_map@.map_values(|i: usize| self.vec@[i as int])
    }
}

impl<T: View> SyncVector<T> {
    /// Each sync id mapped to the view of its element.
    pub open spec fn model(&self) -> Map<u64, T::V> {
        self@.map_values(|v: T| v@)
    }
}

impl<T> SyncVector<T> {
    /// The vector's invariant: the map and the ids name each position once.
    pub closed spec fn wf(&self) -> bool {
        &&& self.ids@.len() == self.vec@.len()
        &&& forall|id: u64| #[trigger]
            self.sync_map@.contains_key(id) ==> self.sync_map@[id] < self.ids@.len()
                && self.ids@[self.sync_map@[id] as int] == id
        &&& forall|i: int|
            0 <= i < self.ids@.len() ==> self.sync_map@.contains_key(#[trigger] self.ids@[i])
                && self.sync_map@[self.ids@[i]] == i
    }

    /// The elements in order.
    pub closed spec fn items(&self) -> Seq<T> {
        self.vec@
    }

    /// The sync ids in order.
    pub closed spec fn order(&self) -> Seq<u64> {
        self.ids@
    }

    proof fn lemma_view_dom(&self)
        ensures
            self@.dom() == self.sync_map@.dom(),
    {
        assert(self@.dom() =~= self.sync_map@.dom());
    }

    /// A well-formed vector names each of its elements once: its view has
    /// as many entries as it has elements.
    pub proof fn lemma_len(&self)
        requires
            self.wf(),
        ensures
            self@.dom().finite(),
            self@.len() == self.items().len(),
    {
        self.lemma_view_dom();
        let ids = self.ids@;
        assert(ids.no_duplicates()) by {
            assert forall|a: int, b: int| 0 <= a < ids.len() && 0 <= b < ids.len() && a != b implies ids[a]
                != ids[b] by {
                assert(self.sync_map@[ids[a]] == a);
                assert(self.sync_map@[ids[b]] == b);
            }
        }
        ids.unique_seq_to_set();
        assert(self@.dom() =~= ids.to_set()) by {
            assert forall|k: u64| self@.dom().contains(k) implies ids.to_set().contains(k) by {
                assert(ids[self.sync_map@[k] as int] == k);
            }
        }
    }

    pub fn new() -> (r: SyncVector<T>)
        ensures
            r.wf(),
            r@ == Map::<u64, T>::empty(),
            r.items() == Seq::<T>::empty(),
    {
        let r = SyncVector { sync_map: HashMap::new(), ids: Vec::new(), vec: Vec::new() };
        proof {
            assert(r@ =~= Map::<u64, T>::empty());
        }
        r
    }

    /// The number of elements.
    pub fn len(&self) -> (r: usize)
        requires
            self.wf(),
        ensures
            r == self.items().len(),
            r == self@.len(),
    {
        proof {
            self.lemma_len();
        }
        self.vec.len()
    }

    /// The element named `sync_index`, if present.
    pub fn get(&self, sync_index: SyncIndex) -> (r: Option<&T>)
        requires
            self.wf(),
        ensures
            r is Some <==> self@.contains_key(sync_index.spec_id()),
            r is Some ==> *r.unwrap() == self@[sync_index.spec_id()],
    {
        proof {
            self.lemma_view_dom();
        }
        match self.sync_map.get(&sync_index.id) {
            Some(i) => Some(&self.vec[*i]),
            None => None,
        }
    }

    /// Like `get`, with the element lent for change.
    pub fn get_mut(&mut self, sync_index: SyncIndex) -> (r: Option<&mut T>)
        requires
            old(self).wf(),
        ensures
            r is Some <==> old(self)@.contains_key(sync_index.spec_id()),
            r is None ==> *final(self) == *old(self),
            r is Some ==> {
                &&& *r.unwrap() == old(self)@[sync_index.spec_id()]
                &&& final(self).wf()
                &&& final(self)@ == old(self)@.insert(sync_index.spec_id(), *final(r.unwrap()))
                &&& final(self).order() == old(self).order()
            },
    {
        proof {
            self.lemma_view_dom();
        }
        match self.sync_map.get(&sync_index.id) {
            Some(i) => {
                let i = *i;
                Some(&mut self.vec[i])
            },
            None => None,
        }
    }

    /// Appends `item` under a fresh name.
    pub fn push(&mut self, item: T) -> (r: SyncIndex)
        requires
            old(self).wf(),
        ensures
            final(self).wf(),
            !old(self)@.contains_key(r.spec_id()),
            final(self)@ == old(self)@.insert(r.spec_id(), item),
            final(self).items() == old(self).items().push(item),
            final(self)@.len() == old(self)@.len() + 1,
    {
        proof {
            self.lemma_len();
        }
        proof {
            self.lemma_view_dom();
        }
        let id = fresh_key(&self.sync_map);
        self.insert_with_known_sync_id(item, SyncIndex { id });
        SyncIndex { id }
    }

    /// Appends `item` under a name that a peer gave it. The name must not be
    /// present yet.
    pub fn insert_with_known_sync_id(&mut self, item: T, sync_id: SyncIndex)
        requires
            old(self).wf(),
            !old(self)@.contains_key(sync_id.spec_id()),
        ensures
            final(self).wf(),
            final(self)@ == old(self)@.insert(sync_id.spec_id(), item),
            final(self).items() == old(self).items().push(item),
            final(self).order() == old(self).order().push(sync_id.spec_id()),
            final(self)@.len() == old(self)@.len() + 1,
    {
        proof {
            self.lemma_len();
        }
        proof {
            self.lemma_view_dom();
        }
        let local_index = self.vec.len();
        self.vec.push(item);
        self.ids.push(sync_id.id);
        self.sync_map.insert(sync_id.id, local_index);
        proof {
            assert forall|i: int|
                0 <= i < self.ids@.len() implies self.sync_map@.contains_key(#[trigger] self.ids@[i])
                && self.sync_map@[self.ids@[i]] == i by {
                if i < local_index {
                    assert(old(self).ids@[i] != sync_id.id);
                }
            }
            assert(self@ =~= old(self)@.insert(sync_id.id, item));
        }
    }

    /// Removes the element named `sync_id` and returns it; the elements
    /// after it move up one place.
    pub fn remove(&mut self, sync_id: SyncIndex) -> (r: Option<T>)
        requires
            old(self).wf(),
        ensures
            final(self).wf(),
            !old(self)@.contains_key(sync_id.spec_id()) ==> r is None && *final(self) == *old(self),
            old(self)@.contains_key(sync_id.spec_id()) ==> {
                &&& r == Some(old(self)@[sync_id.spec_id()])
                &&& final(self)@ == old(self)@.remove(sync_id.spec_id())
                &&& final(self)@.len() == old(self)@.len() - 1
            },
    {
        proof {
            self.lemma_len();
        }
        proof {
            self.lemma_view_dom();
        }
        let pos = match self.sync_map.get(&sync_id.id) {
            Some(p) => *p,
            None => {
                return None;
            },
        };
        let ghost old_ids = self.ids@;
        let ghost old_map = self.sync_map@;
        let value = self.vec.remove(pos);
        self.ids.remove(pos);
        self.sync_map.remove(&sync_id.id);
        let mut j: usize = pos;
        while j < self.ids.len()
            invariant
                pos <= j <= self.ids@.len(),
                self.ids@ == old_ids.remove(pos as int),
                self.ids@.len() == self.vec@.len(),
                self.vec@ == old(self).vec@.remove(pos as int),
                self.sync_map@.dom() == old_map.dom().remove(sync_id.id),
                old_map == old(self).sync_map@,
                pos < old_ids.len(),
                old_ids == old(self).ids@,
                old(self).wf(),
                forall|k: int|
                    0 <= k < self.ids@.len() ==> self.sync_map@.contains_key(#[trigger] self.ids@[k])
                        && (k < j ==> self.sync_map@[self.ids@[k]] == k) && (k >= j
                        ==> self.sync_map@[self.ids@[k]] == k + 1),
            decreases self.ids@.len() - j,
        {
            let id = self.ids[j];
            self.sync_map.insert(id, j);
            proof {
                assert forall|k: int|
                    0 <= k < self.ids@.len() && k != j implies self.ids@[k] != id by {
                    let ka = if k < pos { k } else { k + 1 };
                    let ja = j + 1;
                    assert(old_ids[ka] == self.ids@[k]);
                    assert(old_ids[ja] == id);
                }
                assert(self.sync_map@.dom() =~= old_map.dom().remove(sync_id.id));
            }
            j = j + 1;
        }
        proof {
            assert forall|id: u64| #[trigger]
                self.sync_map@.contains_key(id) implies self.sync_map@[id] < self.ids@.len()
                && self.ids@[self.sync_map@[id] as int] == id by {
                let p = old_map[id] as int;
                assert(old_ids[p] == id);
                let k = if p < pos { p } else { p - 1 };
                assert(p != pos);
                assert(self.ids@[k] == id);
            }
            assert(self@ =~= old(self)@.remove(sync_id.id)) by {
                assert forall|id: u64| #[trigger] self@.contains_key(id) implies self@[id] == old(self)@[id] by {
                    let p = old_map[id] as int;
                    assert(old_ids[p] == id);
                    let k = if p < pos { p } else { p - 1 };
                    assert(self.ids@[k] == id);
                }
            }
        }
        Some(value)
    }
}

/// The change from one vector to another: elements whose value changed or
/// that are new, each with the delta that makes its new value (from the
/// neutral value, for a new one), and the sync ids of elements that are gone.
pub struct SyncVectorDiff<T: Diff> {
    pub altered: Vec<(u64, T::Repr)>,
    pub removed: Vec<u64>,
}

impl<T: Diff> SyncVectorDiff<T> {
    /// Each element occurs at most once among the altered ones.
    pub open spec fn wf(&self) -> bool {
        keys_distinct(self.altered@)
    }

    pub open spec fn altered_map(&self) -> Map<u64, T::Repr> {
        pairs_map(self.altered@)
    }

    pub open spec fn removed_set(&self) -> Set<u64> {
        self.removed@.to_set()
    }

    /// Nothing changed.
    pub open spec fn is_empty_delta(&self) -> bool {
        self.altered@.len() == 0 && self.removed@.len() == 0
    }

    /// Whether the delta lists no change.
    pub fn is_empty(&self) -> (r: bool)
        ensures
            r == self.is_empty_delta(),
    {
        self.altered.len() == 0 && self.removed.len() == 0
    }
}

impl<T: Diff> SyncVector<T> {
    /// The elements of `self` that `other` changed, each with its delta, and
    /// those that `other` lacks.
    fn changed_and_removed(&self, other: &SyncVector<T>) -> (r: (Vec<(u64, T::Repr)>, Vec<u64>))
        requires
            self.wf(),
            other.wf(),
        ensures
            keys_distinct(r.0@),
            forall|t: int|
                0 <= t < r.0@.len() ==> {
                    let k = (#[trigger] r.0@[t]).0;
                    &&& self@.contains_key(k)
                    &&& other@.contains_key(k)
                    &&& self.model()[k] != other.model()[k]
                    &&& r.0@[t].1 == T::delta(self.model()[k], other.model()[k])
                },
            forall|t: int|
                0 <= t < r.1@.len() ==> {
                    let k = #[trigger] r.1@[t];
                    &&& self@.contains_key(k)
                    &&& !other@.contains_key(k)
                },
            forall|k: u64|
                #[trigger] self@.contains_key(k) ==> {
                    &&& (other@.contains_key(k) && self.model()[k] != other.model()[k]) ==> exists|t: int|
                        0 <= t < r.0@.len() && (#[trigger] r.0@[t]).0 == k
                    &&& !other@.contains_key(k) ==> r.1@.contains(k)
                },
    {
        proof {
            self.lemma_view_dom();
            other.lemma_view_dom();
        }
        let mut altered: Vec<(u64, T::Repr)> = Vec::new();
        let mut removed: Vec<u64> = Vec::new();
        let mut j: usize = 0;
        while j < self.ids.len()
            invariant
                self.wf(),
                other.wf(),
                self@.dom() == self.sync_map@.dom(),
                other@.dom() == other.sync_map@.dom(),
                0 <= j <= self.ids@.len(),
                keys_distinct(altered@),
                forall|t: int|
                    0 <= t < altered@.len() ==> {
                        let k = (#[trigger] altered@[t]).0;
                        &&& self@.contains_key(k)
                        &&& other@.contains_key(k)
                        &&& self.model()[k] != other.model()[k]
                        &&& altered@[t].1 == T::delta(self.model()[k], other.model()[k])
                        &&& (self.sync_map@[k] as int) < j
                    },
                forall|t: int|
                    0 <= t < removed@.len() ==> {
                        let k = #[trigger] removed@[t];
                        &&& self@.contains_key(k)
                        &&& !other@.contains_key(k)
                    },
                forall|k: u64|
                    #[trigger] self@.contains_key(k) && (self.sync_map@[k] as int) < j ==> {
                        &&& (other@.contains_key(k) && self.model()[k] != other.model()[k])
                            ==> exists|t: int| 0 <= t < altered@.len() && (#[trigger] altered@[t]).0 == k
                        &&& !other@.contains_key(k) ==> removed@.contains(k)
                    },
            decreases self.ids@.len() - j,
        {
            let ghost altered0 = altered@;
            let ghost removed0 = removed@;
            {
                {
                    let k = self.ids[j];
                    let value = &self.vec[j];
                    proof {
                        assert(self.sync_map@[k] == j);
                        assert(self@[k] == *value);
                    }
                    match other.get(SyncIndex { id: k }) {
                        Some(other_value) => {
                            if !value.same(other_value) {
                                let d = value.diff(other_value);
                                proof {
                                    assert forall|t: int| 0 <= t < altered@.len() implies (#[trigger] altered@[t]).0 != k by {
                                        assert((self.sync_map@[altered@[t].0] as int) < j);
                                    }
                                }
                                altered.push((k, d));
                                proof {
                                    assert(altered@[altered@.len() - 1].0 == k);
                                }
                            }
                        },
                        None => {
                            removed.push(k);
                            proof {
                                assert(removed@[removed@.len() - 1] == k);
                            }
                        },
                    }
                }
            }
            proof {
                assert forall|k: u64|
                    #[trigger] self@.contains_key(k) && (self.sync_map@[k] as int) < j + 1 implies {
                        &&& (other@.contains_key(k) && self.model()[k] != other.model()[k])
                            ==> exists|t: int| 0 <= t < altered@.len() && (#[trigger] altered@[t]).0 == k
                        &&& !other@.contains_key(k) ==> removed@.contains(k)
                    } by {
                    if (self.sync_map@[k] as int) == j {
                        assert(self.ids@[j as int] == k);
                        if other@.contains_key(k) && self.model()[k] != other.model()[k] {
                            assert(altered@[altered@.len() - 1].0 == k);
                        }
                        if !other@.contains_key(k) {
                            assert(removed@[removed@.len() - 1] == k);
                        }
                    } else {
                        if other@.contains_key(k) && self.model()[k] != other.model()[k] {
                            let t = choose|t: int| 0 <= t < altered0.len() && (#[trigger] altered0[t]).0 == k;
                            assert(altered@[t] == altered0[t]);
                        }
                        if !other@.contains_key(k) {
                            assert(removed0.contains(k));
                            let t = choose|t: int| 0 <= t < removed0.len() && removed0[t] == k;
                            assert(removed@[t] == removed0[t]);
                        }
                    }
                }
            }
            j = j + 1;
        }
        proof {
            assert forall|k: u64| #[trigger] self@.contains_key(k) implies {
                &&& (other@.contains_key(k) && self.model()[k] != other.model()[k]) ==> exists|t: int|
                    0 <= t < altered@.len() && (#[trigger] altered@[t]).0 == k
                &&& !other@.contains_key(k) ==> removed@.contains(k)
            } by {
                assert(self.sync_map@.contains_key(k));
            }
        }
        (altered, removed)
    }

    /// Appends to `altered` each element that only `other` has, with its delta
    /// from the neutral value.
    fn append_added(&self, other: &SyncVector<T>, altered: &mut Vec<(u64, T::Repr)>)
        requires
            self.wf(),
            other.wf(),
            keys_distinct(old(altered)@),
            forall|t: int| 0 <= t < old(altered)@.len() ==> self@.contains_key((#[trigger] old(altered)@[t]).0),
        ensures
            keys_distinct(final(altered)@),
            final(altered)@.len() >= old(altered)@.len(),
            forall|t: int| 0 <= t < old(altered)@.len() ==> final(altered)@[t] == old(altered)@[t],
            forall|t: int|
                old(altered)@.len() <= t < final(altered)@.len() ==> {
                    let k = (#[trigger] final(altered)@[t]).0;
                    &&& !self@.contains_key(k)
                    &&& other@.contains_key(k)
                    &&& final(altered)@[t].1 == T::delta(T::neutral(), other.model()[k])
                },
            forall|k: u64|
                !self@.contains_key(k) && #[trigger] other@.contains_key(k) ==> exists|t: int|
                    0 <= t < final(altered)@.len() && (#[trigger] final(altered)@[t]).0 == k,
    {
        proof {
            self.lemma_view_dom();
            other.lemma_view_dom();
        }
        let ghost first = altered@.len();
        let mut j: usize = 0;
        while j < other.ids.len()
            invariant
                self.wf(),
                other.wf(),
                self@.dom() == self.sync_map@.dom(),
                other@.dom() == other.sync_map@.dom(),
                0 <= j <= other.ids@.len(),
                first == old(altered)@.len(),
                first <= altered@.len(),
                keys_distinct(altered@),
                forall|t: int| 0 <= t < first ==> altered@[t] == old(altered)@[t],
                forall|t: int| 0 <= t < first ==> self@.contains_key((#[trigger] altered@[t]).0),
                forall|t: int|
                    first <= t < altered@.len() ==> {
                        let k = (#[trigger] altered@[t]).0;
                        &&& !self@.contains_key(k)
                        &&& other@.contains_key(k)
                        &&& altered@[t].1 == T::delta(T::neutral(), other.model()[k])
                        &&& (other.sync_map@[k] as int) < j
                    },
                forall|k: u64|
                    !self@.contains_key(k) && #[trigger] other@.contains_key(k) && (other.sync_map@[k] as int) < j
                        ==> exists|t: int| 0 <= t < altered@.len() && (#[trigger] altered@[t]).0 == k,
            decreases other.ids@.len() - j,
        {
            let ghost altered0 = altered@;
            {
                {
                    let k = other.ids[j];
                    let value = &other.vec[j];
                    proof {
                        assert(other.sync_map@[k] == j);
                        assert(other@[k] == *value);
                    }
                    if self.get(SyncIndex { id: k }).is_none() {
                        let d = T::identity().diff(value);
                        proof {
                            assert forall|t: int| 0 <= t < altered@.len() implies (#[trigger] altered@[t]).0 != k by {
                                if t >= first {
                                    assert((other.sync_map@[altered@[t].0] as int) < j);
                                }
                            }
                        }
                        altered.push((k, d));
                        proof {
                            assert(altered@[altered@.len() - 1].0 == k);
                        }
                    }
                }
            }
            proof {
                assert forall|k: u64|
                    !self@.contains_key(k) && #[trigger] other@.contains_key(k) && (other.sync_map@[k] as int) < j + 1
                        implies exists|t: int| 0 <= t < altered@.len() && (#[trigger] altered@[t]).0 == k by {
                    if (other.sync_map@[k] as int) == j {
                        assert(other.ids@[j as int] == k);
                        assert(altered@[altered@.len() - 1].0 == k);
                    } else {
                        let t = choose|t: int| 0 <= t < altered0.len() && (#[trigger] altered0[t]).0 == k;
                        assert(altered@[t] == altered0[t]);
                    }
                }
            }
            j = j + 1;
        }
        proof {
            assert forall|k: u64|
                !self@.contains_key(k) && #[trigger] other@.contains_key(k) implies exists|t: int|
                    0 <= t < altered@.len() && (#[trigger] altered@[t]).0 == k by {
                assert(other.sync_map@.contains_key(k));
            }
        }
    }

    /// The delta from `self` to `other`, matched by sync id: objects of both
    /// whose views differ, objects only in `other` (from the neutral value),
    /// and the sync ids of objects only in `self`.
    pub fn diff(&self, other: &SyncVector<T>) -> (r: SyncVectorDiff<T>)
        requires
            self.wf(),
            other.wf(),
        ensures
            r.wf(),
            r.removed_set() == removed_between(self.model(), other.model()),
            r.altered_map() == altered_between::<T>(self.model(), other.model()),
            r.is_empty_delta() <==> self.model() == other.model(),
    {
        let (mut altered, removed) = self.changed_and_removed(other);
        let ghost first = altered@.len();
        let ghost altered0 = altered@;
        self.append_added(other, &mut altered);
        let ghost altered1 = altered@;
        let r = SyncVectorDiff { altered, removed };
        proof {
            self.lemma_view_dom();
            other.lemma_view_dom();
            assert(self.model().dom() =~= self@.dom());
            assert(other.model().dom() =~= other@.dom());
            assert forall|t: int| 0 <= t < first implies {
                let k = (#[trigger] r.altered@[t]).0;
                &&& self.model().contains_key(k)
                &&& other.model().contains_key(k)
                &&& self.model()[k] != other.model()[k]
                &&& r.altered@[t].1 == T::delta(self.model()[k], other.model()[k])
            } by {
                assert(r.altered@[t] == altered0[t]);
            }
            assert forall|k: u64| #[trigger] self.model().contains_key(k) implies {
                &&& (other.model().contains_key(k) && self.model()[k] != other.model()[k]) ==> exists|t: int|
                    0 <= t < r.altered@.len() && (#[trigger] r.altered@[t]).0 == k
                &&& !other.model().contains_key(k) ==> r.removed@.contains(k)
            } by {
                assert(self@.contains_key(k));
                if other.model().contains_key(k) && self.model()[k] != other.model()[k] {
                    let t = choose|t: int| 0 <= t < altered0.len() && (#[trigger] altered0[t]).0 == k;
                    assert(r.altered@[t] == altered0[t]);
                }
            }
            assert forall|k: u64|
                !self.model().contains_key(k) && #[trigger] other.model().contains_key(k) implies exists|t: int|
                    0 <= t < r.altered@.len() && (#[trigger] r.altered@[t]).0 == k by {
                assert(other@.contains_key(k));
                assert(!self@.contains_key(k));
                let t = choose|t: int| 0 <= t < altered1.len() && (#[trigger] altered1[t]).0 == k;
                assert(r.altered@[t] == altered1[t]);
            }
            lemma_diff_result::<T>(self.model(), other.model(), r.altered@, r.removed@, first as int);
        }
        r
    }

    /// Replays a delta: first the removed elements go (an absent one is
    /// passed over), then each altered element is patched in place, or, when
    /// absent, made from the neutral value and appended under its sync id.
    pub fn apply(&mut self, d: &SyncVectorDiff<T>)
        requires
            old(self).wf(),
            d.wf(),
        ensures
            final(self).wf(),
            final(self).model() == patch_model::<T>(
                old(self).model(),
                d.removed_set(),
                d.altered_map(),
            ),
    {
        let ghost om = old(self).model();
        let ghost mut gone: Set<u64> = Set::empty();
        let mut j: usize = 0;
        while j < d.removed.len()
            invariant
                self.wf(),
                0 <= j <= d.removed@.len(),
                self.model() == om.remove_keys(gone),
                forall|x: u64| gone.contains(x) <==> exists|t: int| 0 <= t < j && d.removed@[t] == x,
            decreases d.removed@.len() - j,
        {
            let k = d.removed[j];
            let ghost before = self.model();
            let was_there = self.remove(SyncIndex { id: k }).is_some();
            proof {
                if was_there {
                    assert(self.model() =~= before.remove(k));
                } else {
                    assert(self.model() =~= before.remove(k));
                }
            }
            proof {
                let gone0 = gone;
                gone = gone.insert(k);
                assert(self.model() =~= om.remove_keys(gone));
                assert forall|x: u64| gone.contains(x) <==> exists|t: int| 0 <= t < j + 1 && d.removed@[t] == x by {
                    if gone0.contains(x) {
                        let t = choose|t: int| 0 <= t < j && d.removed@[t] == x;
                        assert(0 <= t < j + 1 && d.removed@[t] == x);
                    }
                    if x == k {
                        assert(d.removed@[j as int] == x);
                    }
                }
            }
            j = j + 1;
        }
        proof {
            assert(gone =~= d.removed_set());
        }
        let ghost mut done: Map<u64, T::Repr> = Map::empty();
        let mut j: usize = 0;
        while j < d.altered.len()
            invariant
                self.wf(),
                d.wf(),
                0 <= j <= d.altered@.len(),
                self.model() == patch_model::<T>(om, gone, done),
                gone == d.removed_set(),
                forall|k: u64|
                    #[trigger] done.contains_key(k) <==> exists|t: int| 0 <= t < j && d.altered@[t].0 == k,
                forall|t: int| 0 <= t < j ==> done[(#[trigger] d.altered@[t]).0] == d.altered@[t].1,
            decreases d.altered@.len() - j,
        {
            let k = d.altered[j].0;
            let delta = &d.altered[j].1;
            let ghost before = self.model();
            proof {
                assert(!done.contains_key(k)) by {
                    if done.contains_key(k) {
                        let t = choose|t: int| 0 <= t < j && d.altered@[t].0 == k;
                        assert(d.altered@[t].0 == d.altered@[j as int].0);
                    }
                }
                lemma_patch_step::<T>(om, gone, done, k, *delta);
                self.lemma_view_dom();
            }
            if self.get(SyncIndex { id: k }).is_some() {
                match self.get_mut(SyncIndex { id: k }) {
                    Some(v) => {
                        v.apply(delta);
                    },
                    None => {},
                }
                proof {
                    assert(self.model() =~= before.insert(k, T::patched(before[k], *delta)));
                }
            } else {
                let value = T::identity().apply_new(delta);
                self.insert_with_known_sync_id(value, SyncIndex { id: k });
                proof {
                    assert(self.model() =~= before.insert(k, T::patched(T::neutral(), *delta)));
                }
            }
            proof {
                let done0 = done;
                done = done.insert(k, *delta);
                assert forall|x: u64| #[trigger] done.contains_key(x) <==> exists|t: int|
                    0 <= t < j + 1 && d.altered@[t].0 == x by {
                    if done0.contains_key(x) {
                        let t = choose|t: int| 0 <= t < j && d.altered@[t].0 == x;
                        assert(0 <= t < j + 1 && d.altered@[t].0 == x);
                    }
                    if x == k {
                        assert(d.altered@[j as int].0 == x);
                    }
                }
                assert forall|t: int| 0 <= t < j + 1 implies done[(#[trigger] d.altered@[t]).0] == d.altered@[t].1 by {
                    if t < j {
                        assert(d.altered@[t].0 != k);
                    }
                }
            }
            j = j + 1;
        }
        proof {
            assert forall|k: u64| #[trigger] done.contains_key(k) <==> d.altered_map().contains_key(k) by {
                if done.contains_key(k) {
                    let t = choose|t: int| 0 <= t < j && d.altered@[t].0 == k;
                    assert(d.altered@[t].0 == k);
                }
                if d.altered_map().contains_key(k) {
                    let t = choose|t: int| 0 <= t < d.altered@.len() && (#[trigger] d.altered@[t]).0 == k;
                    assert(d.altered@[t].0 == k);
                }
            }
            assert forall|k: u64| #[trigger] done.contains_key(k) implies done[k] == d.altered_map()[k] by {
                let t = choose|t: int| 0 <= t < d.altered@.len() && (#[trigger] d.altered@[t]).0 == k;
                assert(d.altered@[t].0 == k);
            }
            assert(done =~= d.altered_map());
        }
    }

    /// An empty vector, the neutral value of vectors.
    pub fn identity() -> (r: SyncVector<T>)
        ensures
            r.wf(),
            r@ == Map::<u64, T>::empty(),
            r.model() == Map::<u64, T::V>::empty(),
    {
        let r = SyncVector::new();
        proof {
            assert(r.model() =~= Map::<u64, T::V>::empty());
        }
        r
    }
}

} // verus!
