use vstd::prelude::*;

use crate::sync_arena::{bumped, raw_handle, SyncArena};

verus! {

/// A walk over the objects of an arena in slot order that takes each object
/// out as it goes, so that the caller can change the arena while holding it.
///
/// The caller may `restore` the object into its slot. If it does not before
/// asking for the next one, the slot is freed for good then: it joins the
/// free list and the arena generation goes up, as on a removal.
pub struct SyncArenaIterator {
    index: usize,
    first: bool,
    restore_generation: u32,
    restore_sync_id: u64,
    restored: bool,
}

impl SyncArenaIterator {
    /// An object was taken out and neither restored nor freed yet.
    pub closed spec fn pending(&self) -> bool {
        !self.restored
    }

    /// The slot of the object taken out last.
    pub closed spec fn slot(&self) -> usize {
        self.index
    }

    /// The generation of the object taken out last.
    pub closed spec fn current_generation(&self) -> u32 {
        self.restore_generation
    }

    /// The sync id of the object taken out last.
    pub closed spec fn current_id(&self) -> u64 {
        self.restore_sync_id
    }

    /// The first slot that the next call looks at: the current one on the
    /// first call, the one after it from then on.
    pub closed spec fn start(&self) -> int {
        if self.first {
            self.index as int
        } else if self.index < usize::MAX {
            self.index + 1
        } else {
            self.index as int
        }
    }

    /// A walk that starts at the first slot.
    pub fn new() -> (r: SyncArenaIterator)
        ensures
            !r.pending(),
            r.start() == 0,
    {
        SyncArenaIterator {
            index: 0,
            first: true,
            restore_generation: 0,
            restore_sync_id: 0,
            restored: true,
        }
    }

    /// Frees the slot of the object taken out before, unless it was restored,
    /// and takes out the object of the next occupied slot.
    pub fn next<T>(&mut self, arena: &mut SyncArena<T>) -> (r: Option<T>)
        requires
            old(arena).wf(),
        ensures
            final(arena).wf(),
            old(self).pending() && old(arena).is_detached(old(self).slot())
                ==> final(arena).spec_generation() == bumped(old(arena).spec_generation()),
            !(old(self).pending() && old(arena).is_detached(old(self).slot()))
                ==> final(arena).spec_generation() == old(arena).spec_generation(),
            r is None ==> final(arena)@ == old(arena)@ && !final(self).pending()
                && old(arena).empty_from(old(self).start()),
            r is None && old(self).start() == 0 ==> old(arena)@ == Map::<u64, T>::empty(),
            r matches Some(v) ==> {
                &&& old(self).start() <= final(self).slot()
                &&& old(arena).empty_range(old(self).start(), final(self).slot() as int)
                &&& old(arena).occupant(final(self).slot() as u32) == Some(final(self).current_id())
                &&& old(arena).located(
                    raw_handle(
                        final(self).slot() as u32,
                        final(self).current_generation(),
                        final(self).current_id(),
                    ),
                ) == Some(final(self).current_id())
                &&& old(arena)@.contains_key(final(self).current_id())
                &&& v == old(arena)@[final(self).current_id()]
                &&& final(arena)@ == old(arena)@.remove(final(self).current_id())
                &&& final(self).pending()
                &&& final(arena).is_detached(final(self).slot())
                &&& final(arena).can_reattach(
                    final(self).slot(),
                    final(self).current_generation(),
                    final(self).current_id(),
                )
            },
    {
        if !self.restored {
            arena.release_detached(self.index);
            self.restored = true;
        }
        let start = if self.first {
            self.first = false;
            self.index
        } else if self.index < usize::MAX {
            self.index + 1
        } else {
            self.index
        };
        let ghost released = *arena;
        match arena.detach_from(start) {
            None => {
                proof {
                    if start == 0 {
                        released.lemma_empty_from_start();
                    }
                }
                None
            },
            Some((j, generation, sync_id, value)) => {
                self.index = j;
                self.restore_generation = generation;
                self.restore_sync_id = sync_id;
                self.restored = false;
                Some(value)
            },
        }
    }

    /// Puts `item` back as the object taken out last, in its slot and under
    /// its sync id. Gives `item` back when nothing is pending or the slot can
    /// no longer take it.
    pub fn restore<T>(&mut self, arena: &mut SyncArena<T>, item: T) -> (r: Result<(), T>)
        requires
            old(arena).wf(),
        ensures
            final(arena).wf(),
            final(arena).spec_generation() == old(arena).spec_generation(),
            r is Ok <==> old(self).pending() && old(arena).can_reattach(
                old(self).slot(),
                old(self).current_generation(),
                old(self).current_id(),
            ),
            r is Ok ==> final(arena)@ == old(arena)@.insert(old(self).current_id(), item)
                && !final(self).pending(),
            r is Ok ==> final(arena).located(
                raw_handle(
                    old(self).slot() as u32,
                    old(self).current_generation(),
                    old(self).current_id(),
                ),
            ) == Some(old(self).current_id()),
            r matches Err(v) ==> v == item && *final(arena) == *old(arena) && *final(self)
                == *old(self),
    {
        if self.restored {
            return Err(item);
        }
        match arena.reattach(self.index, self.restore_generation, self.restore_sync_id, item) {
            Ok(()) => {
                self.restored = true;
                Ok(())
            },
            Err(v) => Err(v),
        }
    }
}

} // verus!
