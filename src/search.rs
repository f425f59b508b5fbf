//! Nearest-neighbour search: a best-first traversal of the forest that gathers
//! candidates up to the exploration budget, then selection of the closest ones.
//!
//! Margins and distances are floating-point computations that the caller
//! supplies as closures returning the bits of an `f32`; the search orders those
//! values exactly as the floats they encode.
use crate::candidates::{id_members, IdSet};
use crate::float_bits::{is_nan, is_nan_bits, neg_bits, negate, order_key, to_order_key, F32_MAX_BITS};
use crate::index::AnnoyIndex;
use crate::priority_queue::{ranks_before, PriorityQueue};
use vstd::multiset::Multiset;
use vstd::prelude::*;
use vstd::set_lib::set_int_range;

verus! {

broadcast use {vstd::seq_lib::group_to_multiset_ensures, vstd::multiset::group_multiset_properties};

/// Result of a query: item ids by ascending distance, and, when asked for,
/// their raw distances as `f32` bits (before the metric's normalisation).
#[derive(Debug)]
pub struct SearchResult {
    pub count: usize,
    pub is_distance_included: bool,
    pub id_list: Vec<u64>,
    pub distance_list: Vec<u32>,
}

/// The entries that take part in the selection: each position `i < k` whose
/// distance is not NaN, with the order key of that distance.
pub open spec fn ranking_pool(raw: Seq<u32>, k: nat) -> Multiset<(usize, u32)>
    decreases k,
{
    if k == 0 {
        Multiset::empty()
    } else if is_nan_bits(raw[k - 1]) {
        ranking_pool(raw, (k - 1) as nat)
    } else {
        ranking_pool(raw, (k - 1) as nat).insert(((k - 1) as usize, order_key(raw[k - 1])))
    }
}

/// `sel` lists the `n` closest entries of the pool of `raw` (all of them when
/// fewer), closest first.
pub open spec fn is_selection(raw: Seq<u32>, n: nat, sel: Seq<(usize, u32)>) -> bool {
    let pool = ranking_pool(raw, raw.len());
    &&& sel.len() == if n < pool.len() { n } else { pool.len() }
    &&& sel.to_multiset().subset_of(pool)
    &&& forall|i: int, j: int| 0 <= i < j < sel.len() ==> sel[i].1 <= sel[j].1
    &&& forall|i: int, x: (usize, u32)|
        #![trigger sel[i], pool.sub(sel.to_multiset()).contains(x)]
        0 <= i < sel.len() && pool.sub(sel.to_multiset()).contains(x) ==> sel[i].1 <= x.1
}

pub(crate) proof fn lemma_pool_bounds(raw: Seq<u32>, k: nat)
    requires
        k <= raw.len(),
        k <= usize::MAX,
    ensures
        forall|x: (usize, u32)| #[trigger]
            ranking_pool(raw, k).contains(x) ==> x.0 < k && !is_nan_bits(raw[x.0 as int]) && x.1
                == order_key(raw[x.0 as int]),
        forall|x: (usize, u32)| ranking_pool(raw, k).count(x) <= 1,
    decreases k,
{
    if k > 0 {
        lemma_pool_bounds(raw, (k - 1) as nat);
        let p = ranking_pool(raw, (k - 1) as nat);
        if !is_nan_bits(raw[k - 1]) {
            let e = ((k - 1) as usize, order_key(raw[k - 1]));
            assert(!p.contains(e));
            assert forall|x: (usize, u32)| #[trigger]
                ranking_pool(raw, k).contains(x) implies x.0 < k && !is_nan_bits(raw[x.0 as int])
                && x.1 == order_key(raw[x.0 as int]) by {
                if x != e {
                    assert(p.contains(x));
                }
            }
            assert forall|x: (usize, u32)| ranking_pool(raw, k).count(x) <= 1 by {
                if x == e {
                    assert(p.count(x) == 0);
                }
            }
        }
    }
}

/// Picks the `n_results` entries of `raw` with the smallest non-NaN distances,
/// closest first, as (position, order key) pairs.
pub fn select_nearest(raw: &Vec<u32>, n_results: usize) -> (r: Vec<(usize, u32)>)
    ensures
        is_selection(raw@, n_results as nat, r@),
{
    let mut sorted_nns: PriorityQueue<usize> = PriorityQueue::with_capacity(raw.len(), true);
    let mut k: usize = 0;
    while k < raw.len()
        invariant
            sorted_nns.wf(),
            sorted_nns.is_min_first(),
            k <= raw@.len(),
            sorted_nns.contents() == ranking_pool(raw@, k as nat),
        decreases raw@.len() - k,
    {
        let bits = raw[k];
        if !is_nan(bits) {
            sorted_nns.push(k, to_order_key(bits));
        }
        k = k + 1;
    }
    let ghost pool = ranking_pool(raw@, raw@.len());
    proof {
        lemma_pool_bounds(raw@, raw@.len());
    }
    let total = sorted_nns.len();
    let count = if n_results < total { n_results } else { total };
    let mut sel: Vec<(usize, u32)> = Vec::with_capacity(count);
    let mut i: usize = 0;
    while i < count
        invariant
            sorted_nns.wf(),
            sorted_nns.is_min_first(),
            count <= total,
            total == pool.len(),
            i <= count,
            sel@.len() == i,
            sorted_nns.contents().len() == total - i,
            sorted_nns.contents().add(sel@.to_multiset()) == pool,
            forall|a: int, b: int| 0 <= a < b < sel@.len() ==> sel@[a].1 <= sel@[b].1,
            forall|a: int, x: (usize, u32)|
                #![trigger sel@[a], sorted_nns.contents().contains(x)]
                0 <= a < sel@.len() && sorted_nns.contents().contains(x) ==> sel@[a].1 <= x.1,
        decreases count - i,
    {
        let ghost before = sorted_nns.contents();
        let popped = sorted_nns.pop();
        match popped {
            Some(e) => {
                proof {
                    assert(before.contains(e));
                    assert forall|a: int| 0 <= a < sel@.len() implies sel@[a].1 <= e.1 by {}
                    assert forall|a: int, x: (usize, u32)|
                        #![trigger sel@.push(e)[a], sorted_nns.contents().contains(x)]
                        0 <= a < sel@.push(e).len() && sorted_nns.contents().contains(x) implies sel@.push(
                        e,
                    )[a].1 <= x.1 by {
                        assert(before.contains(x));
                        assert(ranks_before(true, e.1, x.1));
                        if a < sel@.len() {
                            assert(sel@[a].1 <= x.1);
                        }
                    }
                    assert(sorted_nns.contents().add(sel@.push(e).to_multiset()) =~= pool);
                }
                sel.push(e);
            },
            None => {},
        }
        i = i + 1;
    }
    proof {
        assert(sorted_nns.contents() =~= pool.sub(sel@.to_multiset()));
        assert(sel@.to_multiset().subset_of(pool)) by {
            assert forall|x: (usize, u32)| sel@.to_multiset().count(x) <= pool.count(x) by {}
        }
    }
    sel
}

/// `r` reports the selection `sel` over the candidates `ids` with raw distances
/// `raw`: their ids in order, and their distances when `with_distances` is set.
pub open spec fn result_of(ids: Seq<u64>, raw: Seq<u32>, sel: Seq<(usize, u32)>, with_distances: bool, r: SearchResult) -> bool {
    &&& r.count == sel.len()
    &&& r.is_distance_included == with_distances
    &&& r.id_list@.len() == sel.len()
    &&& forall|i: int| 0 <= i < sel.len() ==> #[trigger] r.id_list@[i] == ids[sel[i].0 as int]
    &&& with_distances ==> r.distance_list@.len() == sel.len()
    &&& with_distances ==> forall|i: int| 0 <= i < sel.len() ==> #[trigger] r.distance_list@[i] == raw[sel[i].0 as int]
    &&& !with_distances ==> r.distance_list@.len() == 0
}

/// Ranks candidates `ids` by their raw distances `raw` (parallel lists):
/// the `n_results` closest non-NaN ones, closest first.
pub fn rank_candidates(ids: &Vec<u64>, raw: &Vec<u32>, n_results: usize, should_include_distance: bool) -> (r: SearchResult)
    requires
        ids@.len() == raw@.len(),
    ensures
        exists|sel: Seq<(usize, u32)>|
            is_selection(raw@, n_results as nat, sel) && result_of(ids@, raw@, sel, should_include_distance, r),
        r.count <= n_results,
        r.id_list@.len() == r.count,
        r.is_distance_included == should_include_distance,
        should_include_distance ==> r.distance_list@.len() == r.count,
        !should_include_distance ==> r.distance_list@.len() == 0,
        forall|i: int, j: int|
            0 <= i < j < r.distance_list@.len() ==> order_key(r.distance_list@[i]) <= order_key(r.distance_list@[j]),
{
    let n_raw = raw.len();
    let sel = select_nearest(raw, n_results);
    let ghost pool = ranking_pool(raw@, raw@.len());
    proof {
        lemma_pool_bounds(raw@, raw@.len());
        assert forall|i: int| 0 <= i < sel@.len() implies #[trigger] pool.contains(sel@[i]) by {
            assert(sel@.to_multiset().contains(sel@[i]));
        }
    }
    let count = sel.len();
    let mut id_list: Vec<u64> = Vec::with_capacity(count);
    let mut distance_list: Vec<u32> = Vec::with_capacity(if should_include_distance { count } else { 0 });
    let mut i: usize = 0;
    while i < count
        invariant
            count == sel@.len(),
            i <= count,
            ids@.len() == raw@.len(),
            forall|k: int| 0 <= k < sel@.len() ==> #[trigger] pool.contains(sel@[k]),
            forall|x: (usize, u32)| #[trigger] pool.contains(x) ==> x.0 < raw@.len() && x.1 == order_key(raw@[x.0 as int]),
            id_list@.len() == i,
            forall|k: int| 0 <= k < i ==> #[trigger] id_list@[k] == ids@[sel@[k].0 as int],
            should_include_distance ==> distance_list@.len() == i,
            !should_include_distance ==> distance_list@.len() == 0,
            forall|k: int| 0 <= k < distance_list@.len() ==> #[trigger] distance_list@[k] == raw@[sel@[k].0 as int],
        decreases count - i,
    {
        let pos = sel[i].0;
        assert(pool.contains(sel@[i as int]));
        id_list.push(ids[pos]);
        if should_include_distance {
            distance_list.push(raw[pos]);
        }
        i = i + 1;
    }
    let r = SearchResult { count, is_distance_included: should_include_distance, id_list, distance_list };
    assert(result_of(ids@, raw@, sel@, should_include_distance, r));
    assert forall|i: int, j: int|
        0 <= i < j < r.distance_list@.len() implies order_key(r.distance_list@[i]) <= order_key(r.distance_list@[j]) by {
        assert(pool.contains(sel@[i]));
        assert(pool.contains(sel@[j]));
    }
    r
}

/// The exploration budget: `search_k` when positive, else the number of
/// results wanted (at least one, at most `size`) times the number of roots,
/// saturated at `usize::MAX`.
pub open spec fn spec_search_budget(n_results: nat, search_k: int, size: nat, n_roots: nat) -> nat {
    if search_k > 0 {
        search_k as nat
    } else {
        let wanted = if n_results < size { n_results } else { size };
        let wanted = if wanted < 1 { 1 } else { wanted };
        if wanted * n_roots > usize::MAX {
            usize::MAX as nat
        } else {
            wanted * n_roots
        }
    }
}

/// The priority of a child reached across a margin with bits `m`, below a node
/// whose priority is `bound` (both as order keys): the smaller of the two, or
/// `bound` when the margin is NaN.
pub open spec fn child_priority(bound: u32, m: u32) -> u32 {
    if is_nan_bits(m) || bound <= order_key(m) {
        bound
    } else {
        order_key(m)
    }
}

/// Node `id` waits in the frontier `m` under some priority.
pub open spec fn queued(m: Multiset<(usize, u32)>, id: usize) -> bool {
    exists|b: u32| #[trigger] m.contains((id, b))
}

fn child_priority_exec(bound: u32, m: u32) -> (r: u32)
    ensures
        r == child_priority(bound, m),
{
    if is_nan(m) {
        bound
    } else {
        let k = to_order_key(m);
        if bound <= k {
            bound
        } else {
            k
        }
    }
}

impl AnnoyIndex {
    /// `x` can be gathered by a search: a stored item, or an id listed in a bucket.
    pub open spec fn is_candidate(&self, x: int) -> bool {
        ||| self.is_leaf(x)
        ||| exists|b: int, j: int|
            #![trigger self.slot_id(b, j)]
            self.is_bucket(b) && 0 <= j < self.n_desc(b) && self.slot_id(b, j) as int == x
    }

    /// The exploration budget for a query.
    pub fn search_budget(&self, n_results: usize, search_k: i32) -> (r: usize)
        requires
            self.wf(),
        ensures
            r == spec_search_budget(n_results as nat, search_k as int, self.size as nat, self.roots@.len()),
    {
        if search_k > 0 {
            search_k as usize
        } else {
            let wanted = if n_results < self.size { n_results } else { self.size };
            let wanted = if wanted < 1 { 1 } else { wanted };
            match wanted.checked_mul(self.roots.len()) {
                Some(p) => p,
                None => usize::MAX,
            }
        }
    }

    /// Node `p` yields candidate `x`: `p` is the stored item `x`, or a bucket
    /// listing `x` (a negative entry names no item and yields nothing).
    pub open spec fn node_gives(&self, p: int, x: int) -> bool {
        ||| self.is_leaf(p) && x == p
        ||| self.is_bucket(p) && 0 <= x && exists|j: int|
            0 <= j < self.n_desc(p) && #[trigger] self.slot_id(p, j) as int == x
    }

    /// The in-range child `c` (0 or 1) of split node `p`, if any.
    pub open spec fn has_child(&self, p: int, c: int) -> bool {
        self.is_split(p) && 0 <= c < 2 && 0 <= self.slot_id(p, c) < self.node_count()
    }

    /// `reached` holds every root and, with each split node, its in-range children.
    pub open spec fn covers_forest(&self, reached: Set<int>) -> bool {
        &&& forall|i: int| 0 <= i < self.roots@.len() ==> reached.contains(#[trigger] self.roots@[i] as int)
        &&& forall|p: int, c: int|
            reached.contains(p) && #[trigger] self.has_child(p, c) ==> reached.contains(self.slot_id(p, c) as int)
    }

    /// `g` lists distinct candidates; when fewer than `k`, every candidate that a
    /// node reachable from the roots yields.
    pub open spec fn gathered_for(&self, g: Seq<usize>, k: nat) -> bool {
        &&& g.no_duplicates()
        &&& forall|i: int| 0 <= i < g.len() ==> self.is_candidate(#[trigger] g[i] as int)
        &&& g.len() < k ==> exists|reached: Set<int>|
            self.covers_forest(reached) && forall|p: int, x: int|
                reached.contains(p) && #[trigger] self.node_gives(p, x) ==> g.contains(x as usize)
    }

    /// Traverses the forest from every root, highest priority first, and gathers
    /// distinct candidate ids until `search_k_fixed` are gathered or the frontier
    /// is exhausted. `margin_of` receives a split node's hyperplane and its extra
    /// field (bias or dot factor; 0 for angular), all as `f32` bits, and returns
    /// the bits of the query's margin. A split node reached twice (which a forest
    /// of trees never does) is expanded once.
    pub fn collect_candidates<F: Fn(Vec<u32>, u32) -> u32>(&self, margin_of: F, search_k_fixed: usize) -> (r: Vec<usize>)
        requires
            self.wf(),
            forall|v: Vec<u32>, x: u32| margin_of.requires((v, x)),
        ensures
            self.gathered_for(r@, search_k_fixed as nat),
    {
        let max_desc = self.max_descendants();
        let n_roots = self.roots.len();
        let mut frontier: PriorityQueue<usize> = PriorityQueue::with_capacity(n_roots, false);
        let top = to_order_key(F32_MAX_BITS);
        let mut i: usize = 0;
        while i < n_roots
            invariant
                self.wf(),
                n_roots == self.roots@.len(),
                i <= n_roots,
                frontier.wf(),
                !frontier.is_min_first(),
                forall|e: (usize, u32)| #[trigger] frontier.contents().contains(e) ==> e.0 < self.node_count(),
                forall|k: int| 0 <= k < i ==> frontier.contents().contains((#[trigger] self.roots@[k], top)),
            decreases n_roots - i,
        {
            assert(self.root_ids()[i as int] < self.node_count());
            let ghost before = frontier.contents();
            frontier.push(self.roots[i], top);
            assert forall|e: (usize, u32)| #[trigger] frontier.contents().contains(e) implies e.0 < self.node_count() by {
                if e != (self.roots@[i as int], top) {
                    assert(before.contains(e));
                }
            }
            assert forall|k: int| 0 <= k < i + 1 implies frontier.contents().contains((#[trigger] self.roots@[k], top)) by {
                if k < i {
                    assert(before.contains((self.roots@[k], top)));
                }
            }
            i = i + 1;
        }
        let mut found = IdSet::new();
        let mut expanded = IdSet::new();
        let mut n_expanded: usize = 0;
        let ghost mut reached: Set<int> = Set::empty();
        proof {
            vstd::set_lib::lemma_int_range(0, self.n_nodes as int);
        }
        while frontier.len() > 0 && found.len() < search_k_fixed
            invariant
                self.wf(),
                n_roots == self.roots@.len(),
                max_desc == self.max_desc(),
                frontier.wf(),
                !frontier.is_min_first(),
                forall|e: (usize, u32)| #[trigger] frontier.contents().contains(e) ==> e.0 < self.node_count(),
                id_members(found).finite(),
                forall|x: int| #[trigger] id_members(found).contains(x) ==> self.is_candidate(x) && 0 <= x <= usize::MAX,
                forall|v: Vec<u32>, x: u32| margin_of.requires((v, x)),
                set_int_range(0, self.n_nodes as int).finite(),
                set_int_range(0, self.n_nodes as int).len() == self.n_nodes,
                id_members(expanded).subset_of(set_int_range(0, self.n_nodes as int)),
                id_members(expanded).finite(),
                id_members(expanded).len() == n_expanded,
                n_expanded <= self.n_nodes,
                forall|k: int|
                    0 <= k < n_roots ==> reached.contains(#[trigger] self.roots@[k] as int) || queued(frontier.contents(), self.roots@[k]),
                forall|p: int, x: int|
                    reached.contains(p) && #[trigger] self.node_gives(p, x) ==> id_members(found).contains(x),
                forall|p: int| reached.contains(p) && self.is_split(p) ==> #[trigger] id_members(expanded).contains(p),
                forall|p: int, c: int|
                    id_members(expanded).contains(p) && #[trigger] self.has_child(p, c) ==> reached.contains(
                        self.slot_id(p, c) as int,
                    ) || queued(frontier.contents(), self.slot_id(p, c) as usize),
                forall|p: int| #[trigger] id_members(expanded).contains(p) ==> self.is_split(p),
            decreases 3 * (self.n_nodes - n_expanded) + frontier.contents().len(),
        {
            let ghost before = frontier.contents();
            let popped = frontier.pop();
            if let Some((id, bound)) = popped {
                let ghost rest = frontier.contents();
                assert forall|e: (usize, u32)| #[trigger] rest.contains(e) implies before.contains(e) by {}
                proof {
                    assert(before.contains((id, bound)));
                    reached = reached.insert(id as int);
                    assert forall|k: int| 0 <= k < n_roots implies reached.contains(#[trigger] self.roots@[k] as int)
                        || queued(rest, self.roots@[k]) by {
                        if !reached.contains(self.roots@[k] as int) {
                            let b = choose|b: u32| #[trigger] before.contains((self.roots@[k], b));
                            assert(rest.contains((self.roots@[k], b)));
                        }
                    }
                    assert forall|p: int, c: int|
                        id_members(expanded).contains(p) && #[trigger] self.has_child(p, c) implies reached.contains(
                        self.slot_id(p, c) as int,
                    ) || queued(rest, self.slot_id(p, c) as usize) by {
                        if !reached.contains(self.slot_id(p, c) as int) {
                            let b = choose|b: u32| #[trigger] before.contains((self.slot_id(p, c) as usize, b));
                            assert(rest.contains((self.slot_id(p, c) as usize, b)));
                        }
                    }
                }
                let node = self.get_node_from_id(id);
                let n_descendants = node.header.get_n_descendant();
                assert(n_descendants == self.n_desc(id as int));
                if n_descendants == 1 && id < self.size {
                    found.insert(id);
                    assert forall|p: int, x: int|
                        reached.contains(p) && #[trigger] self.node_gives(p, x) implies id_members(found).contains(x) by {
                        if p != id as int {
                        }
                    }
                } else if n_descendants < 1 {
                } else if n_descendants as usize <= max_desc {
                    let ids = self.get_descendant_id_slice(id, n_descendants as usize);
                    assert(self.is_bucket(id as int));
                    let ghost found0 = id_members(found);
                    let mut j: usize = 0;
                    while j < ids.len()
                        invariant
                            self.is_bucket(id as int),
                            ids@.len() == self.n_desc(id as int),
                            j <= ids@.len(),
                            forall|k: int| 0 <= k < ids@.len() ==> ids@[k] == self.slot_id(id as int, k),
                            id_members(found).finite(),
                            forall|x: int| #[trigger] id_members(found).contains(x) ==> self.is_candidate(x) && 0 <= x <= usize::MAX,
                            forall|x: int| found0.contains(x) ==> #[trigger] id_members(found).contains(x),
                            forall|k: int|
                                0 <= k < j && 0 <= #[trigger] self.slot_id(id as int, k) ==> id_members(found).contains(
                                    self.slot_id(id as int, k) as int,
                                ),
                        decreases ids@.len() - j,
                    {
                        assert(self.slot_id(id as int, j as int) == ids@[j as int]);
                        if ids[j] >= 0 {
                            found.insert(ids[j] as usize);
                        }
                        j = j + 1;
                    }
                    assert forall|p: int, x: int|
                        reached.contains(p) && #[trigger] self.node_gives(p, x) implies id_members(found).contains(x) by {
                        if p == id as int {
                            let jj = choose|jj: int| 0 <= jj < self.n_desc(p) && #[trigger] self.slot_id(p, jj) as int == x;
                            assert(id_members(found).contains(self.slot_id(id as int, jj) as int));
                        } else {
                            assert(found0.contains(x));
                        }
                    }
                } else {
                    assert(self.is_split(id as int));
                    let ghost expanded0 = id_members(expanded);
                    if expanded.insert(id) {
                        proof {
                            vstd::set_lib::lemma_len_subset(
                                id_members(expanded),
                                set_int_range(0, self.n_nodes as int),
                            );
                        }
                        n_expanded = n_expanded + 1;
                        let v = self.get_node_slice(id);
                        let m = margin_of(v, node.header.get_extra_bits());
                        let children = node.header.get_children_id_slice();
                        let c1 = children[1];
                        let c0 = children[0];
                        assert(c0 == self.slot_id(id as int, 0) && c1 == self.slot_id(id as int, 1));
                        if 0 <= c1 && (c1 as usize) < self.n_nodes {
                            let ghost before = frontier.contents();
                            let p = child_priority_exec(bound, m);
                            frontier.push(c1 as usize, p);
                            assert forall|e: (usize, u32)| #[trigger] frontier.contents().contains(e) implies e.0 < self.node_count() by {
                                if e != (c1 as usize, p) {
                                    assert(before.contains(e));
                                }
                            }
                            assert(frontier.contents().contains((c1 as usize, p)));
                        }
                        let ghost mid = frontier.contents();
                        if 0 <= c0 && (c0 as usize) < self.n_nodes {
                            let ghost before = frontier.contents();
                            let p = child_priority_exec(bound, negate(m));
                            frontier.push(c0 as usize, p);
                            assert forall|e: (usize, u32)| #[trigger] frontier.contents().contains(e) implies e.0 < self.node_count() by {
                                if e != (c0 as usize, p) {
                                    assert(before.contains(e));
                                }
                            }
                            assert(frontier.contents().contains((c0 as usize, p)));
                        }
                        proof {
                            assert forall|e: (usize, u32)| rest.contains(e) implies #[trigger] frontier.contents().contains(e) by {
                                assert(mid.contains(e));
                            }
                            assert forall|e: (usize, u32)| mid.contains(e) implies #[trigger] frontier.contents().contains(e) by {}
                            assert forall|k: int| 0 <= k < n_roots implies reached.contains(#[trigger] self.roots@[k] as int)
                                || queued(frontier.contents(), self.roots@[k]) by {
                                if !reached.contains(self.roots@[k] as int) {
                                    let b = choose|b: u32| #[trigger] rest.contains((self.roots@[k], b));
                                    assert(frontier.contents().contains((self.roots@[k], b)));
                                }
                            }
                            assert forall|p: int, c: int|
                                id_members(expanded).contains(p) && #[trigger] self.has_child(p, c) implies reached.contains(
                                self.slot_id(p, c) as int,
                            ) || queued(frontier.contents(), self.slot_id(p, c) as usize) by {
                                if p == id as int {
                                    if c == 0 {
                                        assert(mid.contains((c0 as usize, child_priority(bound, neg_bits(m)))) || frontier.contents().contains((c0 as usize, child_priority(bound, neg_bits(m)))));
                                    } else {
                                        assert(frontier.contents().contains((c1 as usize, child_priority(bound, m))));
                                    }
                                } else if !reached.contains(self.slot_id(p, c) as int) {
                                    assert(expanded0.contains(p));
                                    let b = choose|b: u32| #[trigger] rest.contains((self.slot_id(p, c) as usize, b));
                                    assert(frontier.contents().contains((self.slot_id(p, c) as usize, b)));
                                }
                            }
                        }
                    }
                }
            }
        }
        proof {
            if id_members(found).len() < search_k_fixed {
                assert(frontier.contents().len() == 0);
                assert forall|e: (usize, u32)| !frontier.contents().contains(e) by {}
                assert(self.covers_forest(reached));
            }
        }
        let r = found.to_vec();
        proof {
            assert forall|i: int| 0 <= i < r@.len() implies self.is_candidate(#[trigger] r@[i] as int) by {
                assert(id_members(found).contains(r@[i] as int));
            }
            assert forall|p: int, x: int| reached.contains(p) && #[trigger] self.node_gives(p, x) && r@.len() < search_k_fixed implies r@.contains(x as usize) by {
                assert(id_members(found).contains((x as usize) as int));
            }
        }
        r
    }

    /// The payload of node `id` as a sequence of `f32` bits.
    pub open spec fn payload(&self, id: int) -> Seq<u32> {
        Seq::new(self.dimension as nat, |j: int| self.payload_bits(id, j) as u32)
    }

    /// `ids` holds exactly the entries of `g` that are stored-item nodes.
    pub open spec fn stored_entries(&self, g: Seq<usize>, ids: Seq<u64>) -> bool {
        &&& forall|k: int| 0 <= k < ids.len() ==> g.contains(#[trigger] ids[k] as usize)
        &&& forall|x: usize|
            #[trigger] g.contains(x) && x < self.node_count() && self.n_desc(x as int) == 1 ==> ids.contains(x as u64)
    }

    /// `ids` are distinct stored-item candidates and `raw[i]` is what
    /// `distance_of` returned for the vector of `ids[i]`.
    pub open spec fn scored<G: Fn(Vec<u32>) -> u32>(&self, ids: Seq<u64>, raw: Seq<u32>, distance_of: G) -> bool {
        &&& ids.len() == raw.len()
        &&& ids.no_duplicates()
        &&& forall|i: int|
            0 <= i < ids.len() ==> {
                &&& self.is_candidate(#[trigger] ids[i] as int)
                &&& ids[i] < self.node_count()
                &&& self.n_desc(ids[i] as int) == 1
                &&& exists|v: Vec<u32>| v@ == self.payload(ids[i] as int) && distance_of.ensures((v,), raw[i])
            }
    }

    /// Finds the `n_results` nearest stored items to a query. `margin_of`
    /// gives the query's margin against a split node (see `collect_candidates`);
    /// `distance_of` gives the raw distance from the query to a stored vector;
    /// both work on `f32` bits. Candidates whose distance is NaN are not ranked.
    pub fn get_nearest<F: Fn(Vec<u32>, u32) -> u32, G: Fn(Vec<u32>) -> u32>(
        &self,
        margin_of: F,
        distance_of: G,
        n_results: usize,
        search_k: i32,
        should_include_distance: bool,
    ) -> (r: SearchResult)
        requires
            self.wf(),
            forall|v: Vec<u32>, x: u32| margin_of.requires((v, x)),
            forall|v: Vec<u32>| distance_of.requires((v,)),
        ensures
            exists|gathered: Seq<usize>, ids: Seq<u64>, raw: Seq<u32>, sel: Seq<(usize, u32)>|
                {
                    &&& self.gathered_for(
                        gathered,
                        spec_search_budget(n_results as nat, search_k as int, self.size as nat, self.roots@.len()),
                    )
                    &&& self.stored_entries(gathered, ids)
                    &&& self.scored(ids, raw, distance_of)
                    &&& is_selection(raw, n_results as nat, sel)
                    &&& result_of(ids, raw, sel, should_include_distance, r)
                },
            r.count <= n_results,
            r.id_list@.len() == r.count,
            r.is_distance_included == should_include_distance,
            should_include_distance ==> r.distance_list@.len() == r.count,
            !should_include_distance ==> r.distance_list@.len() == 0,
            forall|i: int, j: int|
                0 <= i < j < r.distance_list@.len() ==> order_key(r.distance_list@[i]) <= order_key(r.distance_list@[j]),
    {
        let budget = self.search_budget(n_results, search_k);
        let cands = self.collect_candidates(margin_of, budget);
        let mut ids: Vec<u64> = Vec::new();
        let mut raw: Vec<u32> = Vec::new();
        let mut i: usize = 0;
        while i < cands.len()
            invariant
                self.wf(),
                forall|v: Vec<u32>| distance_of.requires((v,)),
                cands@.no_duplicates(),
                forall|a: int| 0 <= a < cands@.len() ==> self.is_candidate(#[trigger] cands@[a] as int),
                self.gathered_for(
                    cands@,
                    spec_search_budget(n_results as nat, search_k as int, self.size as nat, self.roots@.len()),
                ),
                i <= cands@.len(),
                self.scored(ids@, raw@, distance_of),
                forall|k: int| 0 <= k < ids@.len() ==> exists|a: int| 0 <= a < i && cands@[a] as u64 == #[trigger] ids@[k],
                forall|a: int|
                    0 <= a < i && #[trigger] cands@[a] < self.node_count() && self.n_desc(cands@[a] as int) == 1
                        ==> ids@.contains(cands@[a] as u64),
            decreases cands@.len() - i,
        {
            let c = cands[i];
            let ghost ids0 = ids@;
            if c < self.n_nodes {
                let node = self.get_node_from_id(c);
                if node.header.get_n_descendant() == 1 {
                    let v = self.get_node_slice(c);
                    let ghost vv = v;
                    assert(vv@ =~= self.payload(c as int));
                    let d = distance_of(v);
                    proof {
                        assert forall|k: int| 0 <= k < ids@.len() implies ids@[k] != c as u64 by {
                            let a = choose|a: int| 0 <= a < i && cands@[a] as u64 == ids@[k];
                        }
                    }
                    let ghost old_ids = ids@;
                    let ghost old_raw = raw@;
                    ids.push(c as u64);
                    raw.push(d);
                    proof {
                        assert forall|k: int| 0 <= k < ids@.len() implies exists|a: int| 0 <= a < i + 1 && cands@[a] as u64 == #[trigger] ids@[k] by {
                            if k < old_ids.len() {
                                assert(ids@[k] == old_ids[k]);
                            } else {
                                assert(cands@[i as int] as u64 == ids@[k]);
                            }
                        }
                        assert forall|k: int| 0 <= k < ids@.len() implies {
                            &&& self.is_candidate(#[trigger] ids@[k] as int)
                            &&& ids@[k] < self.node_count()
                            &&& self.n_desc(ids@[k] as int) == 1
                            &&& exists|v: Vec<u32>| v@ == self.payload(ids@[k] as int) && distance_of.ensures((v,), raw@[k])
                        } by {
                            if k < old_ids.len() {
                                assert(ids@[k] == old_ids[k] && raw@[k] == old_raw[k]);
                            } else {
                                assert(vv@ == self.payload(ids@[k] as int) && distance_of.ensures((vv,), raw@[k]));
                            }
                        }
                    }
                }
            }
            proof {
                assert forall|a: int|
                    0 <= a < i + 1 && #[trigger] cands@[a] < self.node_count() && self.n_desc(cands@[a] as int) == 1
                        implies ids@.contains(cands@[a] as u64) by {
                    if a < i {
                        let k = choose|k: int| 0 <= k < ids0.len() && ids0[k] == cands@[a] as u64;
                        assert(ids@[k] == ids0[k]);
                    } else {
                        assert(ids@[ids@.len() - 1] == c as u64);
                    }
                }
            }
            i = i + 1;
        }
        proof {
            assert forall|k: int| 0 <= k < ids@.len() implies cands@.contains(#[trigger] ids@[k] as usize) by {
                let a = choose|a: int| 0 <= a < i && cands@[a] as u64 == #[trigger] ids@[k];
                assert(cands@[a] == ids@[k] as usize);
            }
            assert forall|x: usize|
                #[trigger] cands@.contains(x) && x < self.node_count() && self.n_desc(x as int) == 1 implies ids@.contains(x as u64) by {
                let a = choose|a: int| 0 <= a < cands@.len() && cands@[a] == x;
            }
        }
        let r = rank_candidates(&ids, &raw, n_results, should_include_distance);
        proof {
            let sel = choose|sel: Seq<(usize, u32)>|
                is_selection(raw@, n_results as nat, sel) && result_of(ids@, raw@, sel, should_include_distance, r);
            assert(self.stored_entries(cands@, ids@));
            assert({
                &&& self.gathered_for(
                    cands@,
                    spec_search_budget(n_results as nat, search_k as int, self.size as nat, self.roots@.len()),
                )
                &&& self.stored_entries(cands@, ids@)
                &&& self.scored(ids@, raw@, distance_of)
                &&& is_selection(raw@, n_results as nat, sel)
                &&& result_of(ids@, raw@, sel, should_include_distance, r)
            });
        }
        r
    }
}

} // verus!
