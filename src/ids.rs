use std::collections::HashMap;
use vstd::prelude::*;

verus! {

/// Relies on uuid::Uuid::new_v4, a random version-4 uuid, and
/// Uuid::as_u64_pair: its first 64 bits. Nothing is promised of the value.
#[verifier::external_body]
pub(crate) fn random_u64() -> (r: u64) {
    uuid::Uuid::new_v4().as_u64_pair().0
}

/// A key that `m` does not have: a random one, or else the first free one
/// after it. At most `m.len()` keys are passed over.
pub fn fresh_key<V>(m: &HashMap<u64, V>) -> (r: u64)
    ensures
        !m@.contains_key(r),
{
    let start = random_u64();
    let mut candidate = start;
    let mut tried: usize = 0;
    let n = m.len();
    let ghost mut probed: Set<u64> = Set::empty();
    proof {
        vstd::std_specs::hash::axiom_hashmap_view_finite_dom(*m);
    }
    while m.contains_key(&candidate)
        invariant
            m@.dom().finite(),
            n == m@.len(),
            probed.finite(),
            probed.len() == tried,
            probed.subset_of(m@.dom()),
            tried <= n,
            candidate as int == (start as int + tried as int) % 0x1_0000_0000_0000_0000,
            forall|x: u64|
                probed.contains(x) ==> ((x as int - start as int) % 0x1_0000_0000_0000_0000)
                    < tried,
        decreases n - tried,
    {
        proof {
            assert(((candidate as int - start as int) % 0x1_0000_0000_0000_0000) == tried);
            assert(!probed.contains(candidate));
            probed = probed.insert(candidate);
            vstd::set_lib::lemma_len_subset(probed, m@.dom());
        }
        candidate = if candidate == u64::MAX {
            0
        } else {
            candidate + 1
        };
        tried = tried + 1;
    }
    candidate
}

} // verus!
