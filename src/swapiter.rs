use vstd::prelude::*;

verus! {

/// The vector after taking out the element at `i`: the last element moves
/// into its place.
pub open spec fn taken<T>(v: Seq<T>, i: int) -> Seq<T> {
    v.update(i, v.last()).drop_last()
}

/// The vector after putting `e` back at `i`: the element there moves to the
/// end, or `e` goes to the end when `i` is the length.
pub open spec fn restored<T>(v: Seq<T>, i: int, e: T) -> Seq<T> {
    if i < v.len() {
        v.update(i, e).push(v[i])
    } else {
        v.push(e)
    }
}

/// Taking an element out and putting another back in its place changes just
/// that place.
pub proof fn lemma_take_restore<T>(v: Seq<T>, i: int, e: T)
    requires
        0 <= i < v.len(),
    ensures
        restored(taken(v, i), i, e) == v.update(i, e),
{
    let t = taken(v, i);
    if i < t.len() {
        assert(restored(t, i, e) =~= v.update(i, e));
    } else {
        assert(restored(t, i, e) =~= v.update(i, e));
    }
}

/// A walk over a vector that takes each element out in turn, so that the
/// caller can change the vector while holding it, and puts it back.
pub struct SwapIter {
    index: usize,
}

impl SwapIter {
    /// The position of the element that is taken out next.
    pub closed spec fn spec_index(&self) -> usize {
        self.index
    }

    /// A walk that starts at the first element.
    pub fn new() -> (r: SwapIter)
        ensures
            r.spec_index() == 0,
    {
        SwapIter { index: 0 }
    }

    /// Takes out the element at the current position; the last element takes
    /// its place until it is restored.
    pub fn next<T>(&mut self, vec: &mut Vec<T>) -> (r: T)
        requires
            old(self).spec_index() < old(vec)@.len(),
        ensures
            r == old(vec)@[old(self).spec_index() as int],
            final(vec)@ == taken(old(vec)@, old(self).spec_index() as int),
            final(self).spec_index() == old(self).spec_index(),
    {
        vec.swap_remove(self.index)
    }

    /// Puts `element` back at the current position and moves on.
    pub fn restore<T>(&mut self, vec: &mut Vec<T>, element: T)
        requires
            old(self).spec_index() <= old(vec)@.len(),
            old(vec)@.len() < usize::MAX,
        ensures
            final(vec)@ == restored(old(vec)@, old(self).spec_index() as int, element),
            final(self).spec_index() == old(self).spec_index() + 1,
    {
        if self.index < vec.len() {
            let mut displaced = element;
            vec.set_and_swap(self.index, &mut displaced);
            vec.push(displaced);
        } else {
            vec.push(element);
        }
        self.index = self.index + 1;
    }

    /// Whether elements are left to walk over.
    pub fn not_done<T>(&self, vec: &Vec<T>) -> (r: bool)
        ensures
            r == (self.spec_index() < vec@.len()),
    {
        self.index < vec.len()
    }
}

} // verus!
