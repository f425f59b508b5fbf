//! Binary heap over (key, priority) entries, ordered highest-first or lowest-first.
use vstd::multiset::Multiset;
use vstd::prelude::*;

verus! {

broadcast use {vstd::seq_lib::group_to_multiset_ensures, vstd::multiset::group_multiset_properties};

/// Index of the parent of heap slot `i`.
pub open spec fn parent(i: int) -> int {
    (i - 1) / 2
}

/// In a queue ordered lowest-first (`min_first`) or highest-first, priority `a`
/// may stand above priority `b`.
pub open spec fn ranks_before(min_first: bool, a: u32, b: u32) -> bool {
    if min_first {
        a <= b
    } else {
        a >= b
    }
}

/// `a` must stand strictly above `b`: the heap swaps them when `b` is the parent.
pub open spec fn strictly_before(min_first: bool, a: u32, b: u32) -> bool {
    if min_first {
        a < b
    } else {
        a > b
    }
}

/// Slot `i` is ordered with respect to its parent.
pub open spec fn heap_at<K>(s: Seq<(K, u32)>, min_first: bool, i: int) -> bool {
    ranks_before(min_first, s[parent(i)].1, s[i].1)
}

/// Every slot but the root is ordered with respect to its parent.
pub open spec fn is_heap<K>(s: Seq<(K, u32)>, min_first: bool) -> bool {
    forall|i: int| 0 < i < s.len() ==> #[trigger] heap_at(s, min_first, i)
}

/// The root of a heap ranks before every entry.
proof fn lemma_root_first<K>(s: Seq<(K, u32)>, min_first: bool, i: int)
    requires
        is_heap(s, min_first),
        0 <= i < s.len(),
    ensures
        ranks_before(min_first, s[0].1, s[i].1),
    decreases i,
{
    if i > 0 {
        assert(heap_at(s, min_first, i));
        lemma_root_first(s, min_first, parent(i));
    }
}

/// Exchanging two slots keeps the entries.
proof fn lemma_swap_multiset<A>(s: Seq<A>, i: int, j: int)
    requires
        0 <= i < s.len(),
        0 <= j < s.len(),
    ensures
        s.update(i, s[j]).update(j, s[i]).to_multiset() == s.to_multiset(),
{
    let t = s.update(i, s[j]);
    assert(t[j] == s[j]);
    assert(t.update(j, s[i]).to_multiset() == t.to_multiset().insert(s[i]).remove(s[j]));
    assert(t.to_multiset() == s.to_multiset().insert(s[j]).remove(s[i]));
    assert(t.update(j, s[i]).to_multiset() =~= s.to_multiset());
}

/// A priority queue over keys of type `K` with `u32` priorities.
pub struct PriorityQueue<K> {
    min_first: bool,
    entries: Vec<(K, u32)>,
}

impl<K: Copy> PriorityQueue<K> {
    /// Whether the lowest priority leaves first (otherwise the highest).
    pub closed spec fn is_min_first(&self) -> bool {
        self.min_first
    }

    /// The entries in heap order.
    pub closed spec fn items(&self) -> Seq<(K, u32)> {
        self.entries@
    }

    /// The entries held, without order.
    pub open spec fn contents(&self) -> Multiset<(K, u32)> {
        self.items().to_multiset()
    }

    /// The heap property holds.
    pub closed spec fn wf(&self) -> bool {
        is_heap(self.entries@, self.min_first)
    }

    /// An empty queue; `reverse` selects lowest-first order.
    pub fn with_capacity(capacity: usize, reverse: bool) -> (r: Self)
        ensures
            r.wf(),
            r.is_min_first() == reverse,
            r.contents() == Multiset::<(K, u32)>::empty(),
    {
        let r = PriorityQueue { min_first: reverse, entries: Vec::with_capacity(capacity) };
        assert(r.items() =~= Seq::<(K, u32)>::empty());
        r
    }

    fn swap_entries(&mut self, i: usize, j: usize)
        requires
            i < old(self).entries@.len(),
            j < old(self).entries@.len(),
        ensures
            final(self).min_first == old(self).min_first,
            final(self).entries@ == old(self).entries@.update(i as int, old(self).entries@[j as int]).update(
                j as int,
                old(self).entries@[i as int],
            ),
            final(self).entries@.to_multiset() == old(self).entries@.to_multiset(),
    {
        proof {
            lemma_swap_multiset(self.entries@, i as int, j as int);
        }
        let a = self.entries[i];
        let b = self.entries[j];
        self.entries[i] = b;
        self.entries[j] = a;
    }

    /// Adds `key` with `priority`.
    pub fn push(&mut self, key: K, priority: u32)
        requires
            old(self).wf(),
        ensures
            final(self).wf(),
            final(self).is_min_first() == old(self).is_min_first(),
            final(self).contents() == old(self).contents().insert((key, priority)),
    {
        let ghost s0 = self.entries@;
        self.entries.push((key, priority));
        let pos = self.entries.len() - 1;
        assert forall|i: int| 0 < i < self.entries@.len() && i != pos implies #[trigger] heap_at(
            self.entries@,
            self.min_first,
            i,
        ) by {
            assert(heap_at(s0, self.min_first, i));
        }
        if pos > 0 {
            self.max_heap_up_adjust(pos);
        }
    }

    /// Moves the entry at `position` up until its parent ranks before it.
    fn max_heap_up_adjust(&mut self, position: usize)
        requires
            position < old(self).entries@.len(),
            forall|i: int|
                0 < i < old(self).entries@.len() && i != position ==> #[trigger] heap_at(
                    old(self).entries@,
                    old(self).min_first,
                    i,
                ),
            forall|c: int|
                #![trigger parent(c)]
                0 < c < old(self).entries@.len() && parent(c) == position && position > 0
                    ==> ranks_before(
                    old(self).min_first,
                    old(self).entries@[parent(position as int)].1,
                    old(self).entries@[c].1,
                ),
        ensures
            final(self).wf(),
            final(self).min_first == old(self).min_first,
            final(self).entries@.to_multiset() == old(self).entries@.to_multiset(),
    {
        let mut pos = position;
        let len = self.entries.len();
        let ghost mf = self.min_first;
        let mut settled = false;
        while pos > 0 && !settled
            invariant
                settled ==> is_heap(self.entries@, mf),
                self.min_first == mf,
                len == self.entries@.len(),
                pos < len,
                self.entries@.to_multiset() == old(self).entries@.to_multiset(),
                forall|i: int|
                    0 < i < len && i != pos ==> #[trigger] heap_at(self.entries@, mf, i),
                forall|c: int|
                    #![trigger parent(c)]
                    0 < c < len && parent(c) == pos && pos > 0 ==> ranks_before(
                        mf,
                        self.entries@[parent(pos as int)].1,
                        self.entries@[c].1,
                    ),
            decreases pos + if settled { 0int } else { 1int },
        {
            let p_pos = (pos - 1) / 2;
            let ghost s = self.entries@;
            if strictly_before_exec(self.min_first, self.entries[pos].1, self.entries[p_pos].1) {
                self.swap_entries(pos, p_pos);
                let ghost t = self.entries@;
                assert forall|i: int| 0 < i < len && i != p_pos implies #[trigger] heap_at(t, mf, i) by {
                    if i == pos {
                    } else if parent(i) == pos {
                        assert(heap_at(s, mf, i) || parent(i) == pos);
                    } else if parent(i) == p_pos {
                        assert(heap_at(s, mf, i));
                    } else if i == p_pos {
                    } else {
                        assert(heap_at(s, mf, i));
                    }
                }
                assert forall|c: int|
                    #![trigger parent(c)]
                    0 < c < len && parent(c) == p_pos && p_pos > 0 implies ranks_before(
                        mf,
                        t[parent(p_pos as int)].1,
                        t[c].1,
                    ) by {
                    assert(heap_at(s, mf, p_pos as int));
                    if c != pos {
                        assert(heap_at(s, mf, c));
                    }
                }
                pos = p_pos;
            } else {
                assert forall|i: int| 0 < i < len implies #[trigger] heap_at(self.entries@, mf, i) by {
                    if i == pos {
                    }
                }
                settled = true;
            }
        }
    }

    /// Moves the entry at `position` down until it ranks before its children.
    fn max_heap_down_adjust(&mut self, position: usize)
        requires
            position < old(self).entries@.len(),
            forall|i: int|
                0 < i < old(self).entries@.len() && parent(i) != position ==> #[trigger] heap_at(
                    old(self).entries@,
                    old(self).min_first,
                    i,
                ),
            forall|c: int|
                #![trigger parent(c)]
                0 < c < old(self).entries@.len() && parent(c) == position && position > 0
                    ==> ranks_before(
                    old(self).min_first,
                    old(self).entries@[parent(position as int)].1,
                    old(self).entries@[c].1,
                ),
        ensures
            final(self).wf(),
            final(self).min_first == old(self).min_first,
            final(self).entries@.to_multiset() == old(self).entries@.to_multiset(),
    {
        let len = self.entries.len();
        let mut pos = position;
        let ghost mf = self.min_first;
        let mut settled = false;
        while pos < len / 2 && !settled
            invariant
                settled ==> is_heap(self.entries@, mf),
                self.min_first == mf,
                len == self.entries@.len(),
                pos < len,
                self.entries@.to_multiset() == old(self).entries@.to_multiset(),
                forall|i: int|
                    0 < i < len && parent(i) != pos ==> #[trigger] heap_at(self.entries@, mf, i),
                forall|c: int|
                    #![trigger parent(c)]
                    0 < c < len && parent(c) == pos && pos > 0 ==> ranks_before(
                        mf,
                        self.entries@[parent(pos as int)].1,
                        self.entries@[c].1,
                    ),
            decreases len - pos + if settled { 0int } else { 1int },
        {
            let lc_pos = pos * 2 + 1;
            let rc_pos = pos * 2 + 2;
            let mut largest_pos = pos;
            if strictly_before_exec(self.min_first, self.entries[lc_pos].1, self.entries[largest_pos].1) {
                largest_pos = lc_pos;
            }
            if rc_pos < len && strictly_before_exec(
                self.min_first,
                self.entries[rc_pos].1,
                self.entries[largest_pos].1,
            ) {
                largest_pos = rc_pos;
            }
            let ghost s = self.entries@;
            assert(parent(lc_pos as int) == pos);
            assert(parent(rc_pos as int) == pos);
            assert(forall|c: int| 0 < c < len && parent(c) == pos ==> c == lc_pos || c == rc_pos);
            if largest_pos != pos {
                self.swap_entries(largest_pos, pos);
                let ghost t = self.entries@;
                assert forall|i: int|
                    0 < i < len && parent(i) != largest_pos implies #[trigger] heap_at(t, mf, i) by {
                    if i == largest_pos {
                    } else if parent(i) == pos {
                    } else if i == pos {
                        assert(parent(largest_pos as int) == pos);
                    } else {
                        assert(heap_at(s, mf, i));
                    }
                }
                assert forall|c: int|
                    #![trigger parent(c)]
                    0 < c < len && parent(c) == largest_pos && largest_pos > 0 implies ranks_before(
                        mf,
                        t[parent(largest_pos as int)].1,
                        t[c].1,
                    ) by {
                    assert(heap_at(s, mf, c));
                }
                pos = largest_pos;
            } else {
                assert forall|i: int| 0 < i < len implies #[trigger] heap_at(self.entries@, mf, i) by {
                    if parent(i) == pos {
                    }
                }
                settled = true;
            }
        }
        proof {
            if !settled {
                assert(2 * pos + 1 >= len) by (nonlinear_arith)
                    requires
                        pos >= len / 2,
                ;
                assert forall|i: int| 0 < i < len implies #[trigger] heap_at(self.entries@, mf, i) by {
                    if parent(i) == pos {
                        assert(i >= 2 * pos + 1);
                    }
                }
            }
        }
    }

    /// Removes and returns the entry that ranks first, or `None` when empty.
    pub fn pop(&mut self) -> (r: Option<(K, u32)>)
        requires
            old(self).wf(),
        ensures
            final(self).wf(),
            final(self).is_min_first() == old(self).is_min_first(),
            old(self).contents().len() == 0 <==> r is None,
            r is None ==> final(self).contents() == old(self).contents(),
            r matches Some(e) ==> old(self).contents().contains(e) && final(self).contents() == old(
                self,
            ).contents().remove(e) && forall|x: (K, u32)| #[trigger]
                old(self).contents().contains(x) ==> ranks_before(old(self).is_min_first(), e.1, x.1),
    {
        let len = self.entries.len();
        if len > 0 {
            let ghost s = self.entries@;
            proof {
                assert forall|x: (K, u32)| #[trigger] s.to_multiset().contains(x) implies ranks_before(
                    self.min_first,
                    s[0].1,
                    x.1,
                ) by {
                    let i = choose|i: int| 0 <= i < s.len() && s[i] == x;
                    lemma_root_first(s, self.min_first, i);
                }
                assert(s.contains(s[0]));
            }
            let e = self.entries.swap_remove(0);
            proof {
                let t = s.update(0, s.last());
                assert(t.last() == s.last());
                assert(t.remove(t.len() - 1) =~= t.drop_last());
                vstd::seq_lib::to_multiset_remove(t, t.len() - 1);
                vstd::seq_lib::to_multiset_update(s, 0, s.last());
                assert(self.entries@ =~= t.drop_last());
                assert(self.entries@.to_multiset() =~= s.to_multiset().remove(s[0]));
                assert forall|i: int|
                    0 < i < self.entries@.len() && parent(i) != 0 implies #[trigger] heap_at(
                    self.entries@,
                    self.min_first,
                    i,
                ) by {
                    assert(heap_at(s, self.min_first, i));
                }
            }
            if len > 2 {
                self.max_heap_down_adjust(0);
            } else {
                assert forall|i: int| 0 < i < self.entries@.len() implies #[trigger] heap_at(
                    self.entries@,
                    self.min_first,
                    i,
                ) by {}
            }
            return Some(e);
        }
        None
    }

    /// Number of entries held.
    pub fn len(&self) -> (r: usize)
        ensures
            r == self.contents().len(),
    {
        self.entries.len()
    }
}

/// Executable form of `strictly_before`.
fn strictly_before_exec(min_first: bool, a: u32, b: u32) -> (r: bool)
    ensures
        r == strictly_before(min_first, a, b),
{
    if min_first {
        a < b
    } else {
        a > b
    }
}

} // verus!
