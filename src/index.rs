//! The loaded index: layout geometry, forest roots and node accessors.
use crate::node::{
    header_decodes, spec_header_size, spec_max_descendants,
    spec_offset_before_children, IndexType, Node,
};
use crate::storage::{le_i32, le_u32, Storage};
use vstd::prelude::*;

verus! {

/// Why an index could not be loaded.
#[derive(Debug, PartialEq, Eq)]
pub enum LoadError {
    /// The file could not be opened, mapped or read.
    IoError(String),
    /// The byte length does not fit the node size, or the root scan finds no consistent forest.
    CorruptFormat,
    /// The metric has no implementation (Hamming).
    UnsupportedIndexType,
}

/// Bytes in one node of an index of type `t` and `dimension`.
pub open spec fn spec_node_size(t: IndexType, dimension: nat) -> nat {
    spec_header_size(t) + 4 * dimension
}

/// Descendant count of node `id`.
pub open spec fn n_desc_at(s: Seq<u8>, node_size: nat, id: int) -> i32 {
    le_i32(s, id * node_size)
}

/// How many of the nodes `0..j`, counted down from `j - 1`, carry descendant count `m`
/// before the first that does not.
pub open spec fn run_len(s: Seq<u8>, node_size: nat, j: nat, m: i32) -> nat
    decreases j,
{
    if j == 0 {
        0
    } else if n_desc_at(s, node_size, j - 1) == m {
        run_len(s, node_size, (j - 1) as nat, m) + 1
    } else {
        0
    }
}

/// The first child id of node `id`.
pub open spec fn first_child(s: Seq<u8>, t: IndexType, node_size: nat, id: int) -> i32 {
    le_i32(s, id * node_size + spec_offset_before_children(t))
}

/// The nodes found by the backward scan: from the last node down, while the
/// descendant count equals that of the last node.
pub open spec fn scanned_roots(s: Seq<u8>, node_size: nat, n: nat) -> Seq<usize> {
    let m = n_desc_at(s, node_size, n - 1);
    Seq::new(run_len(s, node_size, n, m), |i: int| (n - 1 - i) as usize)
}

/// The forest roots: the scanned nodes, less the last one when it repeats the
/// first child of the first one.
pub open spec fn forest_roots(s: Seq<u8>, t: IndexType, node_size: nat, n: nat) -> Seq<usize> {
    let r = scanned_roots(s, node_size, n);
    if r.len() > 1 && first_child(s, t, node_size, r[0] as int) == first_child(
        s,
        t,
        node_size,
        r.last() as int,
    ) {
        r.drop_last()
    } else {
        r
    }
}

/// The bytes `s` hold a loadable index of type `t` and `dimension`: whole nodes,
/// at least one, and a last node whose descendant count is an item count that
/// the nodes can hold.
pub open spec fn valid_layout(s: Seq<u8>, dimension: nat, t: IndexType) -> bool {
    let ns = spec_node_size(t, dimension);
    let n = s.len() / ns;
    &&& ns <= usize::MAX
    &&& s.len() > 0
    &&& s.len() % ns == 0
    &&& 1 <= n_desc_at(s, ns, n - 1)
    &&& n_desc_at(s, ns, n - 1) <= n
}

proof fn lemma_node_fits(id: int, n: int, ns: int)
    requires
        0 <= id < n,
        0 <= ns,
    ensures
        id * ns + ns <= n * ns,
        0 <= id * ns,
{
    assert(id * ns + ns <= n * ns) by (nonlinear_arith)
        requires
            0 <= id < n,
            0 <= ns,
    ;
    assert(0 <= id * ns) by (nonlinear_arith)
        requires
            0 <= id,
            0 <= ns,
    ;
}

proof fn lemma_div_exact(len: int, ns: int)
    requires
        ns > 0,
        len % ns == 0,
    ensures
        (len / ns) * ns == len,
{
    assert((len / ns) * ns == len) by (nonlinear_arith)
        requires
            ns > 0,
            len % ns == 0,
    ;
}

/// The `n`-th id of the children / bucket slot of the node at `node_offset`.
pub fn get_nth_descendant_id(storage: &Storage, node_offset: usize, offset_before_children: usize, n: usize) -> (r: i32)
    requires
        node_offset + offset_before_children + 4 * n + 4 <= storage@.len(),
    ensures
        r == le_i32(storage@, node_offset + offset_before_children + 4 * n),
{
    // The region's length fits in a usize, which bounds the offsets below.
    let _len = storage.len();
    storage.read_i32(node_offset + offset_before_children + 4 * n)
}

/// A loaded index. It is never changed after loading; every query reads it only.
pub struct AnnoyIndex {
    pub dimension: usize,
    pub index_type: IndexType,
    pub node_size: usize,
    /// Number of item slots (the descendant count of the roots).
    pub size: usize,
    /// Number of whole nodes in `storage`.
    pub n_nodes: usize,
    pub storage: Storage,
    /// Forest roots, from the last node down.
    pub roots: Vec<usize>,
}

impl AnnoyIndex {
    /// The bytes of the index.
    pub open spec fn bytes(&self) -> Seq<u8> {
        self.storage@
    }

    /// The forest roots, in the order they were found.
    pub open spec fn root_ids(&self) -> Seq<usize> {
        self.roots@
    }

    /// Number of whole nodes stored.
    pub open spec fn node_count(&self) -> nat {
        self.n_nodes as nat
    }

    /// Largest descendant count of a bucket node.
    pub open spec fn max_desc(&self) -> nat {
        spec_max_descendants(self.index_type, self.dimension as nat)
    }

    /// Descendant count of node `id`.
    pub open spec fn n_desc(&self, id: int) -> i32 {
        n_desc_at(self.bytes(), self.node_size as nat, id)
    }

    /// Byte offset of node `id`.
    pub open spec fn offset_of(&self, id: int) -> int {
        id * self.node_size
    }

    /// The `j`-th id of the children / bucket slot of node `id`.
    pub open spec fn slot_id(&self, id: int, j: int) -> i32 {
        le_i32(self.bytes(), self.offset_of(id) + spec_offset_before_children(self.index_type) + 4 * j)
    }

    /// The bits of the `j`-th float of the payload of node `id`.
    pub open spec fn payload_bits(&self, id: int, j: int) -> nat {
        le_u32(self.bytes(), self.offset_of(id) + spec_header_size(self.index_type) + 4 * j)
    }

    /// Node `id` is a stored item: in range, below `size`, with one descendant.
    pub open spec fn is_leaf(&self, id: int) -> bool {
        0 <= id < self.size && id < self.node_count() && self.n_desc(id) == 1
    }

    /// Node `id` is a bucket: its slot lists `n_desc(id)` item ids.
    pub open spec fn is_bucket(&self, id: int) -> bool {
        0 <= id < self.node_count() && !self.is_leaf(id) && 1 <= self.n_desc(id) <= self.max_desc()
    }

    /// Node `id` is a split node: its slot holds two child ids.
    pub open spec fn is_split(&self, id: int) -> bool {
        0 <= id < self.node_count() && self.n_desc(id) > self.max_desc()
    }

    /// The index is consistent with its geometry.
    pub open spec fn wf(&self) -> bool {
        &&& self.index_type.is_supported()
        &&& self.node_size == spec_node_size(self.index_type, self.dimension as nat)
        &&& self.bytes().len() <= usize::MAX
        &&& self.node_size > 0
        &&& self.bytes().len() == self.node_count() * self.node_size
        &&& self.node_count() > 0
        &&& 1 <= self.size <= self.node_count()
        &&& self.size <= i32::MAX
        &&& forall|i: int| 0 <= i < self.root_ids().len() ==> #[trigger] self.root_ids()[i] < self.node_count()
    }

    /// Loads an index over an owned byte buffer.
    pub fn load_from_buffer(buffer: Vec<u8>, dimension: usize, index_type: IndexType) -> (r: Result<AnnoyIndex, LoadError>)
        ensures
            !index_type.is_supported() ==> r == Err::<AnnoyIndex, LoadError>(LoadError::UnsupportedIndexType),
            index_type.is_supported() && !valid_layout(buffer@, dimension as nat, index_type) ==> r
                == Err::<AnnoyIndex, LoadError>(LoadError::CorruptFormat),
            index_type.is_supported() && valid_layout(buffer@, dimension as nat, index_type) ==> r is Ok,
            r matches Ok(idx) ==> idx.loaded_from(buffer@, dimension, index_type),
    {
        let ghost b = buffer@;
        let storage = Storage::Buffer(buffer);
        assert(storage@ == b);
        Self::load_from_storage(dimension, storage, index_type)
    }

    /// `self` is what loading `s` as an index of type `t` and `dimension` gives.
    pub open spec fn loaded_from(&self, s: Seq<u8>, dimension: usize, t: IndexType) -> bool {
        let ns = spec_node_size(t, dimension as nat);
        &&& self.wf()
        &&& self.bytes() == s
        &&& self.dimension == dimension
        &&& self.index_type == t
        &&& self.node_size == ns
        &&& self.node_count() == s.len() / ns
        &&& self.size == n_desc_at(s, ns, self.node_count() - 1)
        &&& self.root_ids() == forest_roots(s, t, ns, self.node_count())
    }

    /// Loads an index over `storage`: checks the geometry, scans the roots
    /// backward from the last node, and drops the duplicated trailing root.
    pub fn load_from_storage(dimension: usize, storage: Storage, index_type: IndexType) -> (r: Result<AnnoyIndex, LoadError>)
        ensures
            !index_type.is_supported() ==> r == Err::<AnnoyIndex, LoadError>(LoadError::UnsupportedIndexType),
            index_type.is_supported() && !valid_layout(storage@, dimension as nat, index_type) ==> r
                == Err::<AnnoyIndex, LoadError>(LoadError::CorruptFormat),
            index_type.is_supported() && valid_layout(storage@, dimension as nat, index_type) ==> r is Ok,
            r matches Ok(idx) ==> idx.loaded_from(storage@, dimension, index_type),
    {
        if index_type == IndexType::Hamming {
            return Err(LoadError::UnsupportedIndexType);
        }
        let ghost s = storage@;
        let len = storage.len();
        let header_size = index_type.header_size();
        let obc = index_type.offset_before_children();
        if dimension > (usize::MAX - header_size) / 4 {
            return Err(LoadError::CorruptFormat);
        }
        let node_size = header_size + 4 * dimension;
        let ghost ns = node_size as nat;
        assert(ns == spec_node_size(index_type, dimension as nat));
        if len == 0 || len % node_size != 0 {
            return Err(LoadError::CorruptFormat);
        }
        let n_nodes = len / node_size;
        proof {
            lemma_div_exact(len as int, ns as int);
            assert(n_nodes > 0) by (nonlinear_arith)
                requires
                    n_nodes * ns == len,
                    len > 0,
            ;
            lemma_node_fits(n_nodes - 1, n_nodes as int, ns as int);
        }
        let m = storage.read_i32((n_nodes - 1) * node_size);
        if m < 1 || m as usize > n_nodes {
            return Err(LoadError::CorruptFormat);
        }
        let mut roots: Vec<usize> = Vec::new();
        let mut id = n_nodes;
        let mut stop = false;
        while id > 0 && !stop
            invariant
                s == storage@,
                len == s.len(),
                n_nodes * ns == len,
                ns == node_size,
                ns >= 12,
                m == n_desc_at(s, ns, n_nodes - 1),
                id <= n_nodes,
                roots@ == Seq::new((n_nodes - id) as nat, |i: int| (n_nodes - 1 - i) as usize),
                run_len(s, ns, n_nodes as nat, m) == (n_nodes - id) + run_len(s, ns, id as nat, m),
                stop ==> run_len(s, ns, id as nat, m) == 0,
            decreases id + if stop { 0int } else { 1int },
        {
            proof {
                lemma_node_fits(id - 1, n_nodes as int, ns as int);
            }
            let n_descendants = storage.read_i32((id - 1) * node_size);
            if n_descendants == m {
                roots.push(id - 1);
                id = id - 1;
                assert(roots@ =~= Seq::new((n_nodes - id) as nat, |i: int| (n_nodes - 1 - i) as usize));
            } else {
                stop = true;
            }
        }
        assert(roots@ =~= scanned_roots(s, ns, n_nodes as nat));
        assert(n_nodes as nat == s.len() / ns) by (nonlinear_arith)
            requires
                n_nodes * ns == s.len(),
                ns > 0,
        ;
        assert(roots@.len() >= 1) by {
            assert(n_desc_at(s, ns, n_nodes - 1) == m);
            assert(run_len(s, ns, n_nodes as nat, m) >= 1);
        }
        let rl = roots.len();
        let first = roots[0];
        let last = roots[rl - 1];
        proof {
            lemma_node_fits(first as int, n_nodes as int, ns as int);
            lemma_node_fits(last as int, n_nodes as int, ns as int);
        }
        if rl > 1 && get_nth_descendant_id(&storage, first * node_size, obc, 0) == get_nth_descendant_id(
            &storage,
            last * node_size,
            obc,
            0,
        ) {
            roots.pop();
        }
        let index = AnnoyIndex { dimension, index_type, node_size, size: m as usize, n_nodes, storage, roots };
        assert(index.root_ids() =~= forest_roots(s, index_type, ns, n_nodes as nat));
        Ok(index)
    }
    /// Largest descendant count of a bucket node.
    pub fn max_descendants(&self) -> (r: usize)
        requires
            self.wf(),
        ensures
            r == self.max_desc(),
    {
        match self.index_type {
            IndexType::Dot => self.dimension + 3,
            _ => self.dimension + 2,
        }
    }

    /// Decodes node `id`.
    pub fn get_node_from_id(&self, id: usize) -> (r: Node)
        requires
            self.wf(),
            id < self.node_count(),
        ensures
            r.id == id,
            r.offset == self.offset_of(id as int),
            header_decodes(self.bytes(), r.offset as int, self.index_type, r.header),
    {
        proof {
            lemma_node_fits(id as int, self.n_nodes as int, self.node_size as int);
        }
        Node::new_with_id(id, self.node_size, &self.index_type, &self.storage)
    }

    /// The first `n` ids of the children / bucket slot of node `id`.
    pub fn get_descendant_id_slice(&self, id: usize, n: usize) -> (r: Vec<i32>)
        requires
            self.wf(),
            id < self.node_count(),
            n <= self.max_desc(),
        ensures
            r@.len() == n,
            forall|j: int| 0 <= j < n ==> r@[j] == self.slot_id(id as int, j),
    {
        proof {
            lemma_node_fits(id as int, self.n_nodes as int, self.node_size as int);
        }
        let off = id * self.node_size + self.index_type.offset_before_children();
        let r = self.storage.read_i32_slice(off, n);
        assert forall|j: int| 0 <= j < n implies r@[j] == self.slot_id(id as int, j) by {
            assert(off + 4 * j == self.offset_of(id as int) + spec_offset_before_children(self.index_type) + 4 * j);
        }
        r
    }

    /// The payload of node `id`: `dimension` floats, as bits.
    pub fn get_node_slice(&self, id: usize) -> (r: Vec<u32>)
        requires
            self.wf(),
            id < self.node_count(),
        ensures
            r@.len() == self.dimension,
            forall|j: int| 0 <= j < self.dimension ==> r@[j] as nat == self.payload_bits(id as int, j),
    {
        proof {
            lemma_node_fits(id as int, self.n_nodes as int, self.node_size as int);
        }
        let off = id * self.node_size + self.index_type.header_size();
        let r = self.storage.read_f32_bits_slice(off, self.dimension);
        assert forall|j: int| 0 <= j < self.dimension implies r@[j] as nat == self.payload_bits(id as int, j) by {
            assert(off + 4 * j == self.offset_of(id as int) + spec_header_size(self.index_type) + 4 * j);
        }
        r
    }

    /// The stored vector of item `item_index`, as the bits of its `dimension` floats.
    pub fn get_item_vector(&self, item_index: u64) -> (r: Vec<u32>)
        requires
            self.wf(),
            item_index < self.size,
        ensures
            r@.len() == self.dimension,
            forall|j: int| 0 <= j < self.dimension ==> r@[j] as nat == self.payload_bits(item_index as int, j),
    {
        self.get_node_slice(item_index as usize)
    }

}

} // verus!
