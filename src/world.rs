use vstd::prelude::*;

use crate::diffable::Diff;
use crate::patch::{altered_between, distinct_keys, patch_model, removed_between, sendable};
use crate::sync_arena::{ApplyError, SyncArena, SyncArenaDiff, MAX_SLOTS};

verus! {

/// The sync ids of the objects that the local peer owns, for each arena of
/// a world. Only the owner sends changes and removals of an object.
pub struct Ownership {
    pub bodies: Vec<u64>,
    pub shapes: Vec<u64>,
    pub constraints: Vec<u64>,
}

/// Arenas replicated together: bodies, shapes that refer to bodies, and
/// constraints between bodies, with state of the whole world beside them
/// (such as a force field that acts on every body). Objects refer to each other by handle
/// (`Index`), which crosses processes by sync id and is resolved lazily.
#[derive(Clone)]
pub struct SyncWorld<B, S, C, G> {
    pub bodies: SyncArena<B>,
    pub shapes: SyncArena<S>,
    pub constraints: SyncArena<C>,
    pub global: G,
}

/// The change of a world: one delta for each of its arenas, and the delta
/// of its global state when that changed.
pub struct SyncWorldDiff<B: Diff, S: Diff, C: Diff, G: Diff> {
    pub bodies: SyncArenaDiff<B>,
    pub shapes: SyncArenaDiff<S>,
    pub constraints: SyncArenaDiff<C>,
    pub global: Option<G::Repr>,
}

impl<B: Diff, S: Diff, C: Diff, G: Diff> SyncWorldDiff<B, S, C, G> {
    pub open spec fn wf(&self) -> bool {
        self.bodies.wf() && self.shapes.wf() && self.constraints.wf()
    }

    /// Whether nothing changed.
    pub fn is_empty(&self) -> (r: bool)
        ensures
            r == (self.bodies.is_empty_delta() && self.shapes.is_empty_delta()
                && self.constraints.is_empty_delta() && self.global is None),
    {
        self.bodies.is_empty() && self.shapes.is_empty() && self.constraints.is_empty()
            && self.global.is_none()
    }
}

impl<B: Diff, S: Diff, C: Diff, G: Diff> SyncWorld<B, S, C, G> {
    pub open spec fn wf(&self) -> bool {
        self.bodies.wf() && self.shapes.wf() && self.constraints.wf()
    }

    /// A world with nothing in it.
    pub fn new() -> (r: SyncWorld<B, S, C, G>)
        ensures
            r.wf(),
            r.bodies@ == Map::<u64, B>::empty(),
            r.shapes@ == Map::<u64, S>::empty(),
            r.constraints@ == Map::<u64, C>::empty(),
            r.bodies.model() == Map::<u64, B::V>::empty(),
            r.shapes.model() == Map::<u64, S::V>::empty(),
            r.constraints.model() == Map::<u64, C::V>::empty(),
            r.global@ == G::neutral(),
            r.bodies.room() == MAX_SLOTS,
            r.shapes.room() == MAX_SLOTS,
            r.constraints.room() == MAX_SLOTS,
    {
        SyncWorld {
            bodies: SyncArena::identity(),
            shapes: SyncArena::identity(),
            constraints: SyncArena::identity(),
            global: G::identity(),
        }
    }

    /// The delta from `self` to `other` that the local peer sends: in each
    /// arena, changes and removals only of the objects it owns, and every
    /// new object; and the change of the global state, if any.
    pub fn diff(&self, other: &SyncWorld<B, S, C, G>, owned: &Ownership) -> (r: SyncWorldDiff<B, S, C, G>)
        requires
            self.wf(),
            other.wf(),
        ensures
            r.wf(),
            r.bodies.removed_set() == removed_between(self.bodies.model(), other.bodies.model()).intersect(
                owned.bodies@.to_set(),
            ),
            r.bodies.altered_map() == altered_between::<B>(self.bodies.model(), other.bodies.model()).restrict(
                sendable(self.bodies.model().dom(), owned.bodies@.to_set()),
            ),
            r.shapes.removed_set() == removed_between(self.shapes.model(), other.shapes.model()).intersect(
                owned.shapes@.to_set(),
            ),
            r.shapes.altered_map() == altered_between::<S>(self.shapes.model(), other.shapes.model()).restrict(
                sendable(self.shapes.model().dom(), owned.shapes@.to_set()),
            ),
            r.constraints.removed_set() == removed_between(
                self.constraints.model(),
                other.constraints.model(),
            ).intersect(owned.constraints@.to_set()),
            r.constraints.altered_map() == altered_between::<C>(
                self.constraints.model(),
                other.constraints.model(),
            ).restrict(sendable(self.constraints.model().dom(), owned.constraints@.to_set())),
            r.bodies.altered@.len() <= other.bodies@.len(),
            r.shapes.altered@.len() <= other.shapes@.len(),
            r.constraints.altered@.len() <= other.constraints@.len(),
            r.global == (if self.global@ == other.global@ {
                None
            } else {
                Some(G::delta(self.global@, other.global@))
            }),
    {
        let global = if self.global.same(&other.global) {
            None
        } else {
            Some(self.global.diff(&other.global))
        };
        SyncWorldDiff {
            global,
            bodies: self.bodies.diff_owned(&other.bodies, &owned.bodies),
            shapes: self.shapes.diff_owned(&other.shapes, &owned.shapes),
            constraints: self.constraints.diff_owned(&other.constraints, &owned.constraints),
        }
    }

    /// Replays a world delta: the removals of every arena first, so that
    /// nothing that referred to a removed object comes back, then the
    /// bodies, the shapes and the constraints that changed or are new, in
    /// that order, so that the objects that others refer to exist first.
    pub fn apply(&mut self, d: &SyncWorldDiff<B, S, C, G>)
        requires
            old(self).wf(),
            d.wf(),
            old(self).bodies.room() >= d.bodies.altered@.len(),
            old(self).shapes.room() >= d.shapes.altered@.len(),
            old(self).constraints.room() >= d.constraints.altered@.len(),
        ensures
            final(self).wf(),
            final(self).bodies.model() == patch_model::<B>(
                old(self).bodies.model(),
                d.bodies.removed_set(),
                d.bodies.altered_map(),
            ),
            final(self).shapes.model() == patch_model::<S>(
                old(self).shapes.model(),
                d.shapes.removed_set(),
                d.shapes.altered_map(),
            ),
            final(self).constraints.model() == patch_model::<C>(
                old(self).constraints.model(),
                d.constraints.removed_set(),
                d.constraints.altered_map(),
            ),
            final(self).global@ == (match d.global {
                Some(x) => G::patched(old(self).global@, x),
                None => old(self).global@,
            }),
    {
        if let Some(g) = &d.global {
            self.global.apply(g);
        }
        self.constraints.apply_removals(&d.constraints.removed);
        self.shapes.apply_removals(&d.shapes.removed);
        self.bodies.apply_removals(&d.bodies.removed);
        self.bodies.apply_altered(&d.bodies.altered);
        self.shapes.apply_altered(&d.shapes.altered);
        self.constraints.apply_altered(&d.constraints.altered);
        proof {
            crate::patch::lemma_patch_after_removal::<B>(
                old(self).bodies.model(),
                d.bodies.removed_set(),
                d.bodies.altered_map(),
            );
            crate::patch::lemma_patch_after_removal::<S>(
                old(self).shapes.model(),
                d.shapes.removed_set(),
                d.shapes.altered_map(),
            );
            crate::patch::lemma_patch_after_removal::<C>(
                old(self).constraints.model(),
                d.constraints.removed_set(),
                d.constraints.altered_map(),
            );
        }
    }

    /// Whether some arena could not grow by as many objects as its part of
    /// the delta alters.
    pub open spec fn lacks_room(&self, d: &SyncWorldDiff<B, S, C, G>) -> bool {
        ||| MAX_SLOTS - self.bodies.spec_capacity() < d.bodies.altered@.len()
        ||| MAX_SLOTS - self.shapes.spec_capacity() < d.shapes.altered@.len()
        ||| MAX_SLOTS - self.constraints.spec_capacity() < d.constraints.altered@.len()
    }

    /// Replays a world delta received from a peer, after checking what
    /// `apply` needs; a refused delta changes nothing.
    pub fn apply_checked(&mut self, d: &SyncWorldDiff<B, S, C, G>) -> (r: Result<(), ApplyError>)
        requires
            old(self).wf(),
        ensures
            final(self).wf(),
            r == Err::<(), ApplyError>(ApplyError::AlteredTwice) <==> !d.wf(),
            d.wf() ==> (r == Err::<(), ApplyError>(ApplyError::NoRoom) <==> old(self).lacks_room(d)),
            r is Err ==> *final(self) == *old(self),
            r is Ok ==> final(self).bodies.model() == patch_model::<B>(
                old(self).bodies.model(),
                d.bodies.removed_set(),
                d.bodies.altered_map(),
            ) && final(self).shapes.model() == patch_model::<S>(
                old(self).shapes.model(),
                d.shapes.removed_set(),
                d.shapes.altered_map(),
            ) && final(self).constraints.model() == patch_model::<C>(
                old(self).constraints.model(),
                d.constraints.removed_set(),
                d.constraints.altered_map(),
            ),
            r is Ok ==> final(self).global@ == (match d.global {
                Some(x) => G::patched(old(self).global@, x),
                None => old(self).global@,
            }),
    {
        if !distinct_keys(&d.bodies.altered) || !distinct_keys(&d.shapes.altered) || !distinct_keys(
            &d.constraints.altered,
        ) {
            return Err(ApplyError::AlteredTwice);
        }
        proof {
            self.bodies.lemma_finite();
            self.shapes.lemma_finite();
            self.constraints.lemma_finite();
        }
        if MAX_SLOTS - self.bodies.capacity() < d.bodies.altered.len() || MAX_SLOTS
            - self.shapes.capacity() < d.shapes.altered.len() || MAX_SLOTS
            - self.constraints.capacity() < d.constraints.altered.len() {
            return Err(ApplyError::NoRoom);
        }
        self.apply(d);
        Ok(())
    }
}

} // verus!
