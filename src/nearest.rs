use vstd::prelude::*;

verus! {

/// `i` is the position of the smallest key, and no earlier key is as small:
/// ties between equally near entries go to the earliest one.
pub open spec fn is_first_min(keys: Seq<int>, i: int) -> bool {
    &&& 0 <= i < keys.len()
    &&& forall|j: int| 0 <= j < keys.len() ==> keys[i] <= #[trigger] keys[j]
    &&& forall|j: int| 0 <= j < i ==> keys[i] < #[trigger] keys[j]
}

/// The keys as mathematical integers.
pub open spec fn key_values(keys: Seq<u32>) -> Seq<int> {
    keys.map_values(|k: u32| k as int)
}

/// Picks the entry with the smallest key, the earliest one among equals.
///
/// A key is any value that orders entries the way their distances from
/// the query do.
pub fn nearest_index(keys: &[u32]) -> (i: usize)
    requires
        keys@.len() > 0,
    ensures
        is_first_min(key_values(keys@), i as int),
{
    let ghost ks = key_values(keys@);
    let mut best: usize = 0;
    let mut k: usize = 1;
    while k < keys.len()
        invariant
            ks == key_values(keys@),
            0 <= best < k <= keys@.len(),
            forall|j: int| 0 <= j < k ==> ks[best as int] <= #[trigger] ks[j],
            forall|j: int| 0 <= j < best ==> ks[best as int] < #[trigger] ks[j],
        decreases keys@.len() - k,
    {
        if keys[k] < keys[best] {
            best = k;
        }
        k += 1;
    }
    best
}

/// Only one position is the first smallest: the choice is determined by
/// the keys alone.
pub proof fn lemma_first_min_unique(keys: Seq<int>, a: int, b: int)
    requires
        is_first_min(keys, a),
        is_first_min(keys, b),
    ensures
        a == b,
{
    if a < b {
        assert(keys[b] < keys[a]);
        assert(keys[a] <= keys[b]);
    } else if b < a {
        assert(keys[a] < keys[b]);
        assert(keys[b] <= keys[a]);
    }
}

/// When two entries are equally near, the later one is never chosen; and
/// when they are the nearest of all, the choice is the earlier one or an
/// entry before it that is just as near.
pub proof fn lemma_tie_goes_to_earlier(keys: Seq<int>, i: int, j: int, chosen: int)
    requires
        0 <= i < j < keys.len(),
        keys[i] == keys[j],
        is_first_min(keys, chosen),
    ensures
        chosen != j,
        keys[chosen] == keys[i] ==> chosen <= i,
{
    if chosen > i {
        assert(keys[chosen] < keys[i]);
    }
}

} // verus!
