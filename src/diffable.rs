use vstd::prelude::*;

verus! {

/// A type whose values can describe their change to another value as a delta,
/// and replay such a delta on themselves.
///
/// The laws are stated over the type's view: `diff` yields a delta that turns
/// the view of `self` into the view of `other`, and a delta between equal views
/// changes nothing.
pub trait Diff: Sized + View {
    type Repr;

    /// The view obtained by replaying `d` on a value whose view is `v`.
    spec fn patched(v: Self::V, d: Self::Repr) -> Self::V;

    /// Whether `d` describes no change at all.
    spec fn is_unchanged(d: Self::Repr) -> bool;

    /// The view of the neutral value that new objects are built from.
    spec fn neutral() -> Self::V;

    /// The delta that `diff` yields from a value whose view is `v` to one
    /// whose view is `w`.
    spec fn delta(v: Self::V, w: Self::V) -> Self::Repr;

    /// Replaying the delta from `v` to `w` on `v` gives `w`, and that delta
    /// describes no change exactly when the two are equal.
    proof fn lemma_delta_round_trip(v: Self::V, w: Self::V)
        ensures
            Self::patched(v, Self::delta(v, w)) == w,
            v == w <==> Self::is_unchanged(Self::delta(v, w)),
    ;

    /// Replaying a delta that describes no change leaves every view as it is.
    proof fn lemma_unchanged_is_noop(v: Self::V, d: Self::Repr)
        requires
            Self::is_unchanged(d),
        ensures
            Self::patched(v, d) == v,
    ;

    fn diff(&self, other: &Self) -> (r: Self::Repr)
        ensures
            r == Self::delta(self@, other@),
    ;

    fn apply(&mut self, d: &Self::Repr)
        ensures
            final(self)@ == Self::patched(old(self)@, *d),
    ;

    fn identity() -> (r: Self)
        ensures
            r@ == Self::neutral(),
    ;

    /// A new value: `self` with `d` replayed on it.
    fn apply_new(&self, d: &Self::Repr) -> (r: Self)
        ensures
            r@ == Self::patched(self@, *d),
    ;

    /// Whether the two values have the same view.
    fn same(&self, other: &Self) -> (r: bool)
        ensures
            r == (self@ == other@),
    ;
}

/// The view after replacing a leaf value: `Some(x)` replaces, `None` keeps.
pub open spec fn replaced<V>(v: V, d: Option<V>) -> V {
    match d {
        Some(x) => x,
        None => v,
    }
}

impl Diff for u64 {
    type Repr = Option<u64>;

    open spec fn patched(v: u64, d: Option<u64>) -> u64 {
        replaced(v, d)
    }

    open spec fn is_unchanged(d: Option<u64>) -> bool {
        d is None
    }

    open spec fn neutral() -> u64 {
        0
    }

    open spec fn delta(v: u64, w: u64) -> Option<u64> {
        if v != w {
            Some(w)
        } else {
            None
        }
    }

    proof fn lemma_unchanged_is_noop(v: u64, d: Option<u64>) {
    }

    proof fn lemma_delta_round_trip(v: u64, w: u64) {
    }

    fn diff(&self, other: &u64) -> (r: Option<u64>) {
        if *self != *other {
            Some(*other)
        } else {
            None
        }
    }

    fn apply(&mut self, d: &Option<u64>) {
        if let Some(x) = d {
            *self = *x;
        }
    }

    fn identity() -> (r: u64) {
        0
    }

    fn apply_new(&self, d: &Option<u64>) -> (r: u64) {
        match d {
            Some(x) => *x,
            None => *self,
        }
    }

    fn same(&self, other: &u64) -> (r: bool) {
        *self == *other
    }
}

impl Diff for u32 {
    type Repr = Option<u32>;

    open spec fn patched(v: u32, d: Option<u32>) -> u32 {
        replaced(v, d)
    }

    open spec fn is_unchanged(d: Option<u32>) -> bool {
        d is None
    }

    open spec fn neutral() -> u32 {
        0
    }

    open spec fn delta(v: u32, w: u32) -> Option<u32> {
        if v != w {
            Some(w)
        } else {
            None
        }
    }

    proof fn lemma_unchanged_is_noop(v: u32, d: Option<u32>) {
    }

    proof fn lemma_delta_round_trip(v: u32, w: u32) {
    }

    fn diff(&self, other: &u32) -> (r: Option<u32>) {
        if *self != *other {
            Some(*other)
        } else {
            None
        }
    }

    fn apply(&mut self, d: &Option<u32>) {
        if let Some(x) = d {
            *self = *x;
        }
    }

    fn identity() -> (r: u32) {
        0
    }

    fn apply_new(&self, d: &Option<u32>) -> (r: u32) {
        match d {
            Some(x) => *x,
            None => *self,
        }
    }

    fn same(&self, other: &u32) -> (r: bool) {
        *self == *other
    }
}

impl Diff for i64 {
    type Repr = Option<i64>;

    open spec fn patched(v: i64, d: Option<i64>) -> i64 {
        replaced(v, d)
    }

    open spec fn is_unchanged(d: Option<i64>) -> bool {
        d is None
    }

    open spec fn neutral() -> i64 {
        0
    }

    open spec fn delta(v: i64, w: i64) -> Option<i64> {
        if v != w {
            Some(w)
        } else {
            None
        }
    }

    proof fn lemma_unchanged_is_noop(v: i64, d: Option<i64>) {
    }

    proof fn lemma_delta_round_trip(v: i64, w: i64) {
    }

    fn diff(&self, other: &i64) -> (r: Option<i64>) {
        if *self != *other {
            Some(*other)
        } else {
            None
        }
    }

    fn apply(&mut self, d: &Option<i64>) {
        if let Some(x) = d {
            *self = *x;
        }
    }

    fn identity() -> (r: i64) {
        0
    }

    fn apply_new(&self, d: &Option<i64>) -> (r: i64) {
        match d {
            Some(x) => *x,
            None => *self,
        }
    }

    fn same(&self, other: &i64) -> (r: bool) {
        *self == *other
    }
}

impl Diff for bool {
    type Repr = Option<bool>;

    open spec fn patched(v: bool, d: Option<bool>) -> bool {
        replaced(v, d)
    }

    open spec fn is_unchanged(d: Option<bool>) -> bool {
        d is None
    }

    open spec fn neutral() -> bool {
        false
    }

    open spec fn delta(v: bool, w: bool) -> Option<bool> {
        if v != w {
            Some(w)
        } else {
            None
        }
    }

    proof fn lemma_unchanged_is_noop(v: bool, d: Option<bool>) {
    }

    proof fn lemma_delta_round_trip(v: bool, w: bool) {
    }

    fn diff(&self, other: &bool) -> (r: Option<bool>) {
        if *self != *other {
            Some(*other)
        } else {
            None
        }
    }

    fn apply(&mut self, d: &Option<bool>) {
        if let Some(x) = d {
            *self = *x;
        }
    }

    fn identity() -> (r: bool) {
        false
    }

    fn apply_new(&self, d: &Option<bool>) -> (r: bool) {
        match d {
            Some(x) => *x,
            None => *self,
        }
    }

    fn same(&self, other: &bool) -> (r: bool) {
        *self == *other
    }
}

/// A pair is diffed field by field.
impl<A: Diff, B: Diff> Diff for (A, B) {
    type Repr = (A::Repr, B::Repr);

    open spec fn patched(v: (A::V, B::V), d: (A::Repr, B::Repr)) -> (A::V, B::V) {
        (A::patched(v.0, d.0), B::patched(v.1, d.1))
    }

    open spec fn is_unchanged(d: (A::Repr, B::Repr)) -> bool {
        A::is_unchanged(d.0) && B::is_unchanged(d.1)
    }

    open spec fn neutral() -> (A::V, B::V) {
        (A::neutral(), B::neutral())
    }

    open spec fn delta(v: (A::V, B::V), w: (A::V, B::V)) -> (A::Repr, B::Repr) {
        (A::delta(v.0, w.0), B::delta(v.1, w.1))
    }

    proof fn lemma_delta_round_trip(v: (A::V, B::V), w: (A::V, B::V)) {
        A::lemma_delta_round_trip(v.0, w.0);
        B::lemma_delta_round_trip(v.1, w.1);
    }

    proof fn lemma_unchanged_is_noop(v: (A::V, B::V), d: (A::Repr, B::Repr)) {
        A::lemma_unchanged_is_noop(v.0, d.0);
        B::lemma_unchanged_is_noop(v.1, d.1);
    }

    fn diff(&self, other: &(A, B)) -> (r: (A::Repr, B::Repr)) {
        (self.0.diff(&other.0), self.1.diff(&other.1))
    }

    fn apply(&mut self, d: &(A::Repr, B::Repr)) {
        self.0.apply(&d.0);
        self.1.apply(&d.1);
    }

    fn identity() -> (r: (A, B)) {
        (A::identity(), B::identity())
    }

    fn apply_new(&self, d: &(A::Repr, B::Repr)) -> (r: (A, B)) {
        (self.0.apply_new(&d.0), self.1.apply_new(&d.1))
    }

    fn same(&self, other: &(A, B)) -> (r: bool) {
        self.0.same(&other.0) && self.1.same(&other.1)
    }
}

} // verus!
