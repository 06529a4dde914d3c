use std::collections::{HashMap, HashSet};
use vstd::prelude::*;

use crate::diffable::Diff;

verus! {

/// The map that a sequence of pairs with distinct keys lists.
pub open spec fn pairs_map<R>(s: Seq<(u64, R)>) -> Map<u64, R> {
    Map::new(
        |k: u64| exists|t: int| 0 <= t < s.len() && (#[trigger] s[t]).0 == k,
        |k: u64| s[choose|t: int| 0 <= t < s.len() && (#[trigger] s[t]).0 == k].1,
    )
}

/// No key occurs twice.
pub open spec fn keys_distinct<R>(s: Seq<(u64, R)>) -> bool {
    forall|a: int, b: int| 0 <= a < s.len() && 0 <= b < s.len() && a != b ==> s[a].0 != s[b].0
}

/// The model after replaying a delta: the removed objects go, then each
/// altered one is patched, from its current value or else from the neutral
/// value.
pub open spec fn patch_model<T: Diff>(
    m: Map<u64, T::V>,
    removed: Set<u64>,
    altered: Map<u64, T::Repr>,
) -> Map<u64, T::V> {
    let kept = m.remove_keys(removed);
    Map::new(
        |k: u64| kept.contains_key(k) || altered.contains_key(k),
        |k: u64|
            if altered.contains_key(k) {
                T::patched(
                    if kept.contains_key(k) {
                        kept[k]
                    } else {
                        T::neutral()
                    },
                    altered[k],
                )
            } else {
                kept[k]
            },
    )
}

/// The sync ids that `a` has and `b` lacks.
pub open spec fn removed_between<V>(a: Map<u64, V>, b: Map<u64, V>) -> Set<u64> {
    Set::new(|k: u64| a.contains_key(k) && !b.contains_key(k))
}

/// The objects of `b` that are new or changed against `a`, each with its
/// delta from the old view, or from the neutral view for a new one.
pub open spec fn altered_between<T: Diff>(a: Map<u64, T::V>, b: Map<u64, T::V>) -> Map<
    u64,
    T::Repr,
> {
    Map::new(
        |k: u64| b.contains_key(k) && !(a.contains_key(k) && a[k] == b[k]),
        |k: u64|
            T::delta(
                if a.contains_key(k) {
                    a[k]
                } else {
                    T::neutral()
                },
                b[k],
            ),
    )
}

/// The objects that the local peer may send changes of: those in `owned`,
/// and any object that `a` does not have yet.
pub open spec fn sendable(a_dom: Set<u64>, owned: Set<u64>) -> Set<u64> {
    Set::new(|k: u64| !a_dom.contains(k) || owned.contains(k))
}

/// Round trip: replaying the delta from `a` to `b` on `a` gives `b`.
pub proof fn lemma_round_trip<T: Diff>(a: Map<u64, T::V>, b: Map<u64, T::V>)
    ensures
        patch_model::<T>(a, removed_between(a, b), altered_between::<T>(a, b)) == b,
{
    let p = patch_model::<T>(a, removed_between(a, b), altered_between::<T>(a, b));
    assert forall|k: u64| #[trigger] p.contains_key(k) implies b.contains_key(k) && p[k] == b[k] by {
        if a.contains_key(k) {
            T::lemma_delta_round_trip(a[k], b[k]);
        } else {
            T::lemma_delta_round_trip(T::neutral(), b[k]);
        }
    }
    assert forall|k: u64| #[trigger] b.contains_key(k) implies p.contains_key(k) by {}
    assert(p =~= b);
}

/// Empty diff: the delta from a model to itself removes and alters nothing,
/// and replaying a delta with nothing in it leaves every model as it is.
pub proof fn lemma_empty_diff<T: Diff>(a: Map<u64, T::V>)
    ensures
        removed_between(a, a) == Set::<u64>::empty(),
        altered_between::<T>(a, a) == Map::<u64, T::Repr>::empty(),
        patch_model::<T>(a, Set::empty(), Map::empty()) == a,
{
    assert(removed_between(a, a) =~= Set::<u64>::empty());
    assert(altered_between::<T>(a, a) =~= Map::<u64, T::Repr>::empty());
    assert(patch_model::<T>(a, Set::empty(), Map::empty()) =~= a);
}

/// What the two walks of a diff collected lists exactly the delta between
/// `a` and `b`, and is empty exactly when they are equal.
pub proof fn lemma_diff_result<T: Diff>(
    a: Map<u64, T::V>,
    b: Map<u64, T::V>,
    altered: Seq<(u64, T::Repr)>,
    removed: Seq<u64>,
    first: int,
)
    requires
        0 <= first <= altered.len(),
        keys_distinct(altered),
        forall|t: int|
            0 <= t < first ==> {
                let k = (#[trigger] altered[t]).0;
                &&& a.contains_key(k)
                &&& b.contains_key(k)
                &&& a[k] != b[k]
                &&& altered[t].1 == T::delta(a[k], b[k])
            },
        forall|t: int|
            first <= t < altered.len() ==> {
                let k = (#[trigger] altered[t]).0;
                &&& !a.contains_key(k)
                &&& b.contains_key(k)
                &&& altered[t].1 == T::delta(T::neutral(), b[k])
            },
        forall|t: int|
            0 <= t < removed.len() ==> {
                let k = #[trigger] removed[t];
                &&& a.contains_key(k)
                &&& !b.contains_key(k)
            },
        forall|k: u64|
            #[trigger] a.contains_key(k) ==> {
                &&& (b.contains_key(k) && a[k] != b[k]) ==> exists|t: int|
                    0 <= t < altered.len() && (#[trigger] altered[t]).0 == k
                &&& !b.contains_key(k) ==> removed.contains(k)
            },
        forall|k: u64|
            !a.contains_key(k) && #[trigger] b.contains_key(k) ==> exists|t: int|
                0 <= t < altered.len() && (#[trigger] altered[t]).0 == k,
    ensures
        pairs_map(altered) == altered_between::<T>(a, b),
        removed.to_set() == removed_between(a, b),
        (altered.len() == 0 && removed.len() == 0) <==> a == b,
{
    let am = pairs_map(altered);
    let ab = altered_between::<T>(a, b);
    assert forall|k: u64| #[trigger] am.contains_key(k) <==> ab.contains_key(k) by {
        if am.contains_key(k) {
            let t = choose|t: int| 0 <= t < altered.len() && (#[trigger] altered[t]).0 == k;
            assert(altered[t].0 == k);
        }
        if ab.contains_key(k) {
            let t = choose|t: int| 0 <= t < altered.len() && (#[trigger] altered[t]).0 == k;
            assert(altered[t].0 == k);
        }
    }
    assert forall|k: u64| #[trigger] am.contains_key(k) implies am[k] == ab[k] by {
        let t = choose|t: int| 0 <= t < altered.len() && (#[trigger] altered[t]).0 == k;
        assert(altered[t].0 == k);
    }
    assert(am =~= ab);
    let rs = removed.to_set();
    assert forall|k: u64| #[trigger] rs.contains(k) <==> removed_between(a, b).contains(k) by {
        if rs.contains(k) {
            let t = choose|t: int| 0 <= t < removed.len() && removed[t] == k;
            assert(removed[t] == k);
        }
    }
    assert(rs =~= removed_between(a, b));
    if a == b {
        if altered.len() > 0 {
            let k = altered[0].0;
            if 0 < first {
                assert(a[k] != b[k]);
            } else {
                assert(!a.contains_key(k) && b.contains_key(k));
            }
            assert(false);
        }
        if removed.len() > 0 {
            let k = removed[0];
            assert(a.contains_key(k) && !b.contains_key(k));
            assert(false);
        }
    }
    if altered.len() == 0 && removed.len() == 0 {
        assert forall|k: u64| #[trigger] a.contains_key(k) <==> b.contains_key(k) by {
            if a.contains_key(k) && !b.contains_key(k) {
                assert(removed.contains(k));
            }
            if b.contains_key(k) && !a.contains_key(k) {
                let t = choose|t: int| 0 <= t < altered.len() && (#[trigger] altered[t]).0 == k;
                assert(altered[t].0 == k);
            }
        }
        assert forall|k: u64| #[trigger] a.contains_key(k) implies a[k] == b[k] by {
            if a[k] != b[k] {
                let t = choose|t: int| 0 <= t < altered.len() && (#[trigger] altered[t]).0 == k;
                assert(altered[t].0 == k);
            }
        }
        assert(a =~= b);
    }
}

/// A sequence of pairs with distinct keys, all of them keys of `m`, is no
/// longer than `m`.
pub proof fn lemma_distinct_keys_len<R, V>(s: Seq<(u64, R)>, m: Map<u64, V>)
    requires
        keys_distinct(s),
        m.dom().finite(),
        forall|t: int| 0 <= t < s.len() ==> m.contains_key(#[trigger] s[t].0),
    ensures
        s.len() <= m.len(),
{
    let keys = s.map_values(|p: (u64, R)| p.0);
    assert(keys.no_duplicates()) by {
        assert forall|a: int, b: int| 0 <= a < keys.len() && 0 <= b < keys.len() && a != b implies keys[a]
            != keys[b] by {
            assert(keys[a] == s[a].0 && keys[b] == s[b].0);
        }
    }
    keys.unique_seq_to_set();
    assert(keys.to_set().subset_of(m.dom())) by {
        assert forall|k: u64| keys.to_set().contains(k) implies m.dom().contains(k) by {
            let t = choose|t: int| 0 <= t < keys.len() && keys[t] == k;
            assert(keys[t] == s[t].0);
        }
    }
    vstd::set_lib::lemma_len_subset(keys.to_set(), m.dom());
}

/// Replaying the removals first and then the alterations on their own is
/// replaying the whole delta.
pub proof fn lemma_patch_after_removal<T: Diff>(
    m: Map<u64, T::V>,
    removed: Set<u64>,
    altered: Map<u64, T::Repr>,
)
    ensures
        patch_model::<T>(m.remove_keys(removed), Set::empty(), altered) == patch_model::<T>(
            m,
            removed,
            altered,
        ),
{
    assert(m.remove_keys(removed).remove_keys(Set::empty()) =~= m.remove_keys(removed));
    assert(patch_model::<T>(m.remove_keys(removed), Set::empty(), altered) =~= patch_model::<T>(
        m,
        removed,
        altered,
    ));
}

/// Adding one more altered object, not altered yet, patches just that object.
pub proof fn lemma_patch_step<T: Diff>(
    m: Map<u64, T::V>,
    removed: Set<u64>,
    done: Map<u64, T::Repr>,
    k: u64,
    d: T::Repr,
)
    requires
        !done.contains_key(k),
    ensures
        ({
            let pm = patch_model::<T>(m, removed, done);
            patch_model::<T>(m, removed, done.insert(k, d)) == pm.insert(
                k,
                T::patched(
                    if pm.contains_key(k) {
                        pm[k]
                    } else {
                        T::neutral()
                    },
                    d,
                ),
            )
        }),
{
    let pm = patch_model::<T>(m, removed, done);
    let lhs = patch_model::<T>(m, removed, done.insert(k, d));
    let rhs = pm.insert(
        k,
        T::patched(
            if pm.contains_key(k) {
                pm[k]
            } else {
                T::neutral()
            },
            d,
        ),
    );
    assert(lhs =~= rhs);
}

/// Whether no key occurs twice among the pairs.
pub fn distinct_keys<R>(pairs: &Vec<(u64, R)>) -> (r: bool)
    ensures
        r == keys_distinct(pairs@),
{
    let mut seen: HashSet<u64> = HashSet::new();
    let mut j: usize = 0;
    while j < pairs.len()
        invariant
            0 <= j <= pairs@.len(),
            forall|k: u64| seen@.contains(k) <==> exists|t: int| 0 <= t < j && pairs@[t].0 == k,
            forall|a: int, b: int| 0 <= a < j && 0 <= b < j && a != b ==> pairs@[a].0 != pairs@[b].0,
        decreases pairs@.len() - j,
    {
        let k = pairs[j].0;
        let ghost seen0 = seen@;
        if !seen.insert(k) {
            proof {
                let t = choose|t: int| 0 <= t < j && pairs@[t].0 == k;
                assert(pairs@[t].0 == pairs@[j as int].0);
            }
            return false;
        }
        proof {
            assert forall|x: u64| seen@.contains(x) <==> exists|t: int| 0 <= t < j + 1 && pairs@[t].0 == x by {
                if seen0.contains(x) {
                    let t = choose|t: int| 0 <= t < j && pairs@[t].0 == x;
                    assert(0 <= t < j + 1);
                }
                if x == k {
                    assert(pairs@[j as int].0 == x);
                }
            }
            assert forall|a: int, b: int| 0 <= a < j + 1 && 0 <= b < j + 1 && a != b implies pairs@[a].0
                != pairs@[b].0 by {
                if a == j {
                    assert(0 <= b < j && pairs@[b].0 == pairs@[b].0);
                    assert(seen0.contains(pairs@[b].0));
                } else if b == j {
                    assert(0 <= a < j && pairs@[a].0 == pairs@[a].0);
                    assert(seen0.contains(pairs@[a].0));
                }
            }
        }
        j = j + 1;
    }
    true
}

/// Whether `v` holds `k`.
pub fn holds(v: &Vec<u64>, k: u64) -> (r: bool)
    ensures
        r == v@.contains(k),
{
    let mut j: usize = 0;
    while j < v.len()
        invariant
            0 <= j <= v@.len(),
            forall|t: int| 0 <= t < j ==> v@[t] != k,
        decreases v@.len() - j,
    {
        if v[j] == k {
            return true;
        }
        j = j + 1;
    }
    false
}

/// The pairs whose key may be sent: keys in `owned`, and keys that
/// `present` lacks. Order is kept.
pub fn keep_sendable<R, V>(pairs: Vec<(u64, R)>, present: &HashMap<u64, V>, owned: &Vec<u64>) -> (r: Vec<
    (u64, R),
>)
    requires
        keys_distinct(pairs@),
    ensures
        keys_distinct(r@),
        pairs_map(r@) == pairs_map(pairs@).restrict(sendable(present@.dom(), owned@.to_set())),
        r@.len() <= pairs@.len(),
{
    let ghost input = pairs@;
    let ghost keepset = sendable(present@.dom(), owned@.to_set());
    let ghost mut src: Seq<int> = Seq::empty();
    let mut out: Vec<(u64, R)> = Vec::new();
    let mut rest = pairs;
    let n = rest.len();
    let mut j: usize = 0;
    while j < n
        invariant
            n == input.len(),
            0 <= j <= n,
            keys_distinct(input),
            rest@ == input.subrange(j as int, n as int),
            keepset == sendable(present@.dom(), owned@.to_set()),
            out@.len() == src.len(),
            out@.len() <= j,
            forall|u: int|
                0 <= u < src.len() ==> 0 <= #[trigger] src[u] < j && out@[u] == input[src[u]]
                    && keepset.contains(input[src[u]].0),
            forall|u: int, v: int| 0 <= u < v < src.len() ==> src[u] < src[v],
            forall|t: int|
                0 <= t < j && keepset.contains(#[trigger] input[t].0) ==> out@.contains(input[t]),
        decreases n - j,
    {
        let ghost out0 = out@;
        let p = rest.remove(0);
        proof {
            assert(p == input[j as int]);
            assert(rest@ =~= input.subrange(j + 1, n as int));
        }
        let k = p.0;
        let keep = holds(owned, k) || !present.contains_key(&k);
        proof {
            assert(keep == keepset.contains(k));
        }
        if keep {
            out.push(p);
            proof {
                src = src.push(j as int);
                assert forall|t: int|
                    0 <= t < j + 1 && keepset.contains(#[trigger] input[t].0) implies out@.contains(input[t]) by {
                    if t < j {
                        assert(out0.contains(input[t]));
                        let u = choose|u: int| 0 <= u < out0.len() && out0[u] == input[t];
                        assert(out@[u] == input[t]);
                    } else {
                        assert(out@[out@.len() - 1] == input[t]);
                    }
                }
            }
        }
        j = j + 1;
    }
    proof {
        assert forall|a: int, b: int| 0 <= a < out@.len() && 0 <= b < out@.len() && a != b implies out@[a].0
            != out@[b].0 by {
            assert(src[a] != src[b]) by {
                if a < b {
                    assert(src[a] < src[b]);
                } else {
                    assert(src[b] < src[a]);
                }
            }
        }
        let lhs = pairs_map(out@);
        let rhs = pairs_map(input).restrict(keepset);
        assert forall|k: u64| #[trigger] lhs.contains_key(k) <==> rhs.contains_key(k) by {
            if lhs.contains_key(k) {
                let u = choose|u: int| 0 <= u < out@.len() && (#[trigger] out@[u]).0 == k;
                assert(input[src[u]].0 == k);
            }
            if rhs.contains_key(k) {
                let t = choose|t: int| 0 <= t < input.len() && (#[trigger] input[t]).0 == k;
                assert(keepset.contains(input[t].0));
                assert(out@.contains(input[t]));
                let u = choose|u: int| 0 <= u < out@.len() && out@[u] == input[t];
                assert(out@[u].0 == k);
            }
        }
        assert forall|k: u64| #[trigger] lhs.contains_key(k) implies lhs[k] == rhs[k] by {
            let u = choose|u: int| 0 <= u < out@.len() && (#[trigger] out@[u]).0 == k;
            let t = src[u];
            let t2 = choose|t2: int| 0 <= t2 < input.len() && (#[trigger] input[t2]).0 == k;
            assert(input[t].0 == k && input[t2].0 == k);
            assert(t == t2);
        }
        assert(lhs =~= rhs);
    }
    out
}

/// The ids of `ids` that `owned` holds, in order.
pub fn keep_owned(ids: &Vec<u64>, owned: &Vec<u64>) -> (r: Vec<u64>)
    ensures
        r@.to_set() == ids@.to_set().intersect(owned@.to_set()),
{
    let mut out: Vec<u64> = Vec::new();
    let mut j: usize = 0;
    while j < ids.len()
        invariant
            0 <= j <= ids@.len(),
            forall|x: u64| out@.contains(x) <==> (exists|t: int| 0 <= t < j && ids@[t] == x) && owned@.contains(x),
        decreases ids@.len() - j,
    {
        let k = ids[j];
        let ghost out0 = out@;
        proof {
            assert(forall|x: u64| #[trigger] out0.contains(x) <==> (exists|t: int| 0 <= t < j && ids@[t] == x) && owned@.contains(x));
        }
        if holds(owned, k) {
            out.push(k);
        }
        proof {
            assert forall|x: u64| out@.contains(x) <==> (exists|t: int| 0 <= t < j + 1 && ids@[t] == x) && owned@.contains(x) by {
                if out@.contains(x) {
                    let u = choose|u: int| 0 <= u < out@.len() && out@[u] == x;
                    if u < out0.len() {
                        assert(out0[u] == x);
                        assert(out0.contains(x));
                        let t = choose|t: int| 0 <= t < j && ids@[t] == x;
                        assert(0 <= t < j + 1);
                    } else {
                        assert(ids@[j as int] == x);
                    }
                }
                if (exists|t: int| 0 <= t < j + 1 && ids@[t] == x) && owned@.contains(x) {
                    let t = choose|t: int| 0 <= t < j + 1 && ids@[t] == x;
                    if t < j {
                        assert(out0.contains(x));
                        let u = choose|u: int| 0 <= u < out0.len() && out0[u] == x;
                        assert(out@[u] == x);
                    } else {
                        assert(out@[out@.len() - 1] == x);
                    }
                }
            }
        }
        j = j + 1;
    }
    proof {
        assert(out@.to_set() =~= ids@.to_set().intersect(owned@.to_set()));
    }
    out
}

} // verus!
