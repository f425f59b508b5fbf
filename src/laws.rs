//! Properties that relate loading and querying.
use crate::index::{first_child, scanned_roots, spec_node_size, AnnoyIndex};
use crate::node::IndexType;
use crate::float_bits::is_nan_bits;
use crate::search::{is_selection, lemma_pool_bounds, ranking_pool, result_of, SearchResult};
use vstd::prelude::*;

verus! {

broadcast use {vstd::seq_lib::group_to_multiset_ensures, vstd::multiset::group_multiset_properties};

/// Number of positions below `k` whose distance bits are not NaN.
pub open spec fn non_nan_count(raw: Seq<u32>, k: nat) -> nat
    decreases k,
{
    if k == 0 {
        0
    } else if is_nan_bits(raw[k - 1]) {
        non_nan_count(raw, (k - 1) as nat)
    } else {
        non_nan_count(raw, (k - 1) as nat) + 1
    }
}

proof fn lemma_pool_len(raw: Seq<u32>, k: nat)
    requires
        k <= raw.len(),
    ensures
        ranking_pool(raw, k).len() == non_nan_count(raw, k),
    decreases k,
{
    if k > 0 {
        lemma_pool_len(raw, (k - 1) as nat);
    }
}

/// When the backward root scan finds more than one root and the last one found
/// repeats the first child of the first one, loading keeps one root fewer than
/// the scan found; otherwise it keeps them all.
pub proof fn lemma_duplicate_root_dropped(idx: &AnnoyIndex, s: Seq<u8>, dimension: usize, t: IndexType)
    requires
        idx.loaded_from(s, dimension, t),
    ensures
        ({
            let ns = spec_node_size(t, dimension as nat);
            let scan = scanned_roots(s, ns, idx.node_count());
            &&& scan.len() > 1 && first_child(s, t, ns, scan[0] as int) == first_child(s, t, ns, scan.last() as int)
                ==> idx.root_ids().len() + 1 == scan.len()
            &&& !(scan.len() > 1 && first_child(s, t, ns, scan[0] as int) == first_child(s, t, ns, scan.last() as int))
                ==> idx.root_ids().len() == scan.len()
        }),
{
}

/// A query reports at most `n` results, exactly `n` when at least `n`
/// candidates have a distance that is not NaN and otherwise all of those;
/// without distances asked for, the distance list is empty.
pub proof fn lemma_result_count(ids: Seq<u64>, raw: Seq<u32>, n: nat, sel: Seq<(usize, u32)>, with_distances: bool, r: SearchResult)
    requires
        is_selection(raw, n, sel),
        result_of(ids, raw, sel, with_distances, r),
    ensures
        r.count <= n,
        r.count == if n < non_nan_count(raw, raw.len()) { n } else { non_nan_count(raw, raw.len()) },
        r.id_list@.len() == r.count,
        !with_distances ==> r.distance_list@.len() == 0,
{
    lemma_pool_len(raw, raw.len());
}

/// A selection over distances whose counts in the pool are at most one lists
/// no entry twice.
proof fn lemma_selection_distinct(raw: Seq<u32>, n: nat, sel: Seq<(usize, u32)>)
    requires
        raw.len() <= usize::MAX,
        is_selection(raw, n, sel),
    ensures
        sel.no_duplicates(),
{
    let pool = ranking_pool(raw, raw.len());
    lemma_pool_bounds(raw, raw.len());
    assert forall|x: (usize, u32)| sel.to_multiset().contains(x) implies sel.to_multiset().count(x) == 1 by {
        assert(sel.to_multiset().count(x) <= pool.count(x));
    }
    sel.lemma_multiset_has_no_duplicates_conv();
}

/// A selection reports at place `i` no strictly smaller distance than another
/// selection over the same distances.
proof fn lemma_no_smaller_at(raw: Seq<u32>, n: nat, s1: Seq<(usize, u32)>, s2: Seq<(usize, u32)>, i: int)
    requires
        raw.len() <= usize::MAX,
        is_selection(raw, n, s1),
        is_selection(raw, n, s2),
        0 <= i < s1.len(),
        s1.len() == s2.len(),
    ensures
        s1[i].1 >= s2[i].1,
{
    if s1[i].1 < s2[i].1 {
        lemma_front_contained(raw, n, s1, s2, i);
    }
}

proof fn lemma_front_contained(raw: Seq<u32>, n: nat, s1: Seq<(usize, u32)>, s2: Seq<(usize, u32)>, i: int)
    requires
        raw.len() <= usize::MAX,
        is_selection(raw, n, s1),
        is_selection(raw, n, s2),
        0 <= i < s1.len(),
        s1.len() == s2.len(),
        s1[i].1 < s2[i].1,
    ensures
        s1.subrange(0, i + 1).to_set().len() <= s2.subrange(0, i).to_set().len(),
        s1.subrange(0, i + 1).to_set().len() == i + 1,
        s2.subrange(0, i).to_set().len() <= i,
{
    let pool = ranking_pool(raw, raw.len());
    lemma_pool_bounds(raw, raw.len());
    lemma_selection_distinct(raw, n, s1);
    let a = s1[i].1;
    let front1 = s1.subrange(0, i + 1);
    let front2 = s2.subrange(0, i);
    assert(front1.no_duplicates());
    front1.unique_seq_to_set();
    front2.lemma_cardinality_of_set();
    assert forall|x: (usize, u32)| #[trigger] front1.to_set().contains(x) implies front2.to_set().contains(x) by {
        let k = choose|k: int| 0 <= k < front1.len() && front1[k] == x;
        assert(s1[k] == x);
        assert(s1.contains(x));
        assert(s1.to_multiset().contains(x));
        assert(pool.contains(x));
        assert(x.1 <= a);
        if s2.to_multiset().contains(x) {
            assert(s2.contains(x));
            let k2 = choose|k2: int| 0 <= k2 < s2.len() && s2[k2] == x;
            if k2 >= i {
                assert(s2[i].1 <= s2[k2].1);
            } else {
                assert(front2[k2] == x);
            }
        } else {
            assert(pool.sub(s2.to_multiset()).count(x) == pool.count(x));
            assert(pool.sub(s2.to_multiset()).contains(x));
            assert(s2[i].1 <= x.1);
        }
    }
    vstd::set_lib::lemma_len_subset(front1.to_set(), front2.to_set());
}

/// Any two selections of the `n` closest entries over the same distances report
/// the same distances in the same order: a repeated query over the same index
/// reports the same distances, and the same items but for ties.
pub proof fn lemma_selection_distances_determined(raw: Seq<u32>, n: nat, s1: Seq<(usize, u32)>, s2: Seq<(usize, u32)>)
    requires
        raw.len() <= usize::MAX,
        is_selection(raw, n, s1),
        is_selection(raw, n, s2),
    ensures
        s1.len() == s2.len(),
        forall|i: int| 0 <= i < s1.len() ==> #[trigger] s1[i].1 == s2[i].1,
{
    assert forall|i: int| 0 <= i < s1.len() implies #[trigger] s1[i].1 == s2[i].1 by {
        lemma_no_smaller_at(raw, n, s1, s2, i);
        lemma_no_smaller_at(raw, n, s2, s1, i);
    }
}

} // verus!
