//! Index types, node header layouts and node decoding.
use crate::storage::{le_i32, le_u32, word_in, Storage};
use vstd::prelude::*;

verus! {

/// Metric family of an index; it fixes the node header layout.
#[derive(PartialEq, Eq, Structural, Debug, Clone, Copy)]
pub enum IndexType {
    Angular,
    Euclidean,
    Manhattan,
    Hamming,
    Dot,
}

/// Byte offset of the children / bucket slot inside a node header.
pub open spec fn spec_offset_before_children(t: IndexType) -> nat {
    match t {
        IndexType::Euclidean | IndexType::Manhattan => 8,
        _ => 4,
    }
}

/// Size in bytes of a node header.
pub open spec fn spec_header_size(t: IndexType) -> nat {
    match t {
        IndexType::Angular => 12,
        _ => 16,
    }
}

/// Byte offset of the metric's extra float field (bias or dot factor), if any.
pub open spec fn spec_extra_offset(t: IndexType) -> nat {
    match t {
        IndexType::Euclidean | IndexType::Manhattan => 4,
        IndexType::Dot => 12,
        _ => 0,
    }
}

/// Largest descendant count of a bucket node.
pub open spec fn spec_max_descendants(t: IndexType, dimension: nat) -> nat {
    match t {
        IndexType::Dot => dimension + 3,
        _ => dimension + 2,
    }
}

impl IndexType {
    /// The metric can be served (every type but Hamming).
    pub open spec fn is_supported(self) -> bool {
        self != IndexType::Hamming
    }

    /// Byte offset of the children / bucket slot inside a node header.
    pub fn offset_before_children(&self) -> (r: usize)
        ensures
            r == spec_offset_before_children(*self),
    {
        match self {
            IndexType::Euclidean | IndexType::Manhattan => 8,
            _ => 4,
        }
    }

    /// Size in bytes of a node header.
    pub fn header_size(&self) -> (r: usize)
        ensures
            r == spec_header_size(*self),
    {
        match self {
            IndexType::Angular => NodeHeaderAngular::header_size(),
            IndexType::Euclidean | IndexType::Manhattan => NodeHeaderMinkowski::header_size(),
            _ => NodeHeaderDot::header_size(),
        }
    }

    /// Byte offset of the metric's extra float field (0 when there is none).
    pub fn extra_offset(&self) -> (r: usize)
        ensures
            r == spec_extra_offset(*self),
    {
        match self {
            IndexType::Euclidean | IndexType::Manhattan => 4,
            IndexType::Dot => 12,
            _ => 0,
        }
    }
}

/// Header of an angular node: descendant count and two child ids.
#[derive(Debug, Clone, Copy)]
pub struct NodeHeaderAngular {
    pub n_descendants: i32,
    pub children: [i32; 2],
}

/// Header of a Euclidean or Manhattan node: descendant count, bias (as bits), two child ids.
#[derive(Debug, Clone, Copy)]
pub struct NodeHeaderMinkowski {
    pub n_descendants: i32,
    pub bias_bits: u32,
    pub children: [i32; 2],
}

/// Header of a dot-product node: descendant count, two child ids, dot factor (as bits).
#[derive(Debug, Clone, Copy)]
pub struct NodeHeaderDot {
    pub n_descendants: i32,
    pub children: [i32; 2],
    pub dot_factor_bits: u32,
}

impl NodeHeaderAngular {
    /// Size in bytes of the header on disk.
    pub fn header_size() -> (r: usize)
        ensures
            r == 12,
    {
        12
    }
}

impl NodeHeaderMinkowski {
    /// Size in bytes of the header on disk.
    pub fn header_size() -> (r: usize)
        ensures
            r == 16,
    {
        16
    }
}

impl NodeHeaderDot {
    /// Size in bytes of the header on disk.
    pub fn header_size() -> (r: usize)
        ensures
            r == 16,
    {
        16
    }
}

/// A decoded node header, one variant per layout.
#[derive(Debug, Clone, Copy)]
pub enum NodeHeader {
    Angular(NodeHeaderAngular),
    Minkowski(NodeHeaderMinkowski),
    Dot(NodeHeaderDot),
}

/// The header of the node at `offset` decodes to `h` under layout `t`.
pub open spec fn header_decodes(s: Seq<u8>, offset: int, t: IndexType, h: NodeHeader) -> bool {
    &&& h.n_descendants() == le_i32(s, offset)
    &&& h.children()[0] == le_i32(s, offset + spec_offset_before_children(t))
    &&& h.children()[1] == le_i32(s, offset + spec_offset_before_children(t) + 4)
    &&& h.extra_bits() as nat == if spec_extra_offset(t) == 0 {
        0
    } else {
        le_u32(s, offset + spec_extra_offset(t))
    }
}

impl NodeHeader {
    pub open spec fn n_descendants(self) -> i32 {
        match self {
            NodeHeader::Angular(h) => h.n_descendants,
            NodeHeader::Minkowski(h) => h.n_descendants,
            NodeHeader::Dot(h) => h.n_descendants,
        }
    }

    pub open spec fn children(self) -> [i32; 2] {
        match self {
            NodeHeader::Angular(h) => h.children,
            NodeHeader::Minkowski(h) => h.children,
            NodeHeader::Dot(h) => h.children,
        }
    }

    pub open spec fn extra_bits(self) -> u32 {
        match self {
            NodeHeader::Angular(h) => 0,
            NodeHeader::Minkowski(h) => h.bias_bits,
            NodeHeader::Dot(h) => h.dot_factor_bits,
        }
    }

    /// Decodes the header of the node at `offset` under the layout of `index_type`.
    pub fn new(offset: usize, index_type: &IndexType, storage: &Storage) -> (r: NodeHeader)
        requires
            index_type.is_supported(),
            offset + spec_header_size(*index_type) <= storage@.len(),
        ensures
            header_decodes(storage@, offset as int, *index_type, r),
    {
        // The region's length fits in a usize, which bounds the offsets below.
        let _len = storage.len();
        let n_descendants = storage.read_i32(offset);
        match index_type {
            IndexType::Euclidean | IndexType::Manhattan => {
                let bias_bits = storage.read_f32_bits(offset + 4);
                let c0 = storage.read_i32(offset + 8);
                let c1 = storage.read_i32(offset + 12);
                NodeHeader::Minkowski(NodeHeaderMinkowski { n_descendants, bias_bits, children: [c0, c1] })
            },
            IndexType::Dot => {
                let c0 = storage.read_i32(offset + 4);
                let c1 = storage.read_i32(offset + 8);
                let dot_factor_bits = storage.read_f32_bits(offset + 12);
                NodeHeader::Dot(NodeHeaderDot { n_descendants, children: [c0, c1], dot_factor_bits })
            },
            _ => {
                let c0 = storage.read_i32(offset + 4);
                let c1 = storage.read_i32(offset + 8);
                NodeHeader::Angular(NodeHeaderAngular { n_descendants, children: [c0, c1] })
            },
        }
    }

    /// The descendant count.
    pub fn get_n_descendant(&self) -> (r: i32)
        ensures
            r == self.n_descendants(),
    {
        match self {
            NodeHeader::Angular(h) => h.n_descendants,
            NodeHeader::Minkowski(h) => h.n_descendants,
            NodeHeader::Dot(h) => h.n_descendants,
        }
    }

    /// The two child ids.
    pub fn get_children_id_slice(&self) -> (r: [i32; 2])
        ensures
            r == self.children(),
    {
        match self {
            NodeHeader::Angular(h) => h.children,
            NodeHeader::Minkowski(h) => h.children,
            NodeHeader::Dot(h) => h.children,
        }
    }

    /// Bits of the bias or dot factor; 0 for angular headers.
    pub fn get_extra_bits(&self) -> (r: u32)
        ensures
            r == self.extra_bits(),
    {
        match self {
            NodeHeader::Angular(_) => 0,
            NodeHeader::Minkowski(h) => h.bias_bits,
            NodeHeader::Dot(h) => h.dot_factor_bits,
        }
    }
}

/// A node: its id, byte offset and decoded header.
#[derive(Debug, Clone, Copy)]
pub struct Node {
    pub id: usize,
    pub offset: usize,
    pub header: NodeHeader,
}

impl Node {
    /// Decodes node `id`, stored at `id * node_size`.
    pub fn new_with_id(id: usize, node_size: usize, index_type: &IndexType, storage: &Storage) -> (r: Node)
        requires
            index_type.is_supported(),
            id * node_size + spec_header_size(*index_type) <= storage@.len(),
        ensures
            r.id == id,
            r.offset == id * node_size,
            header_decodes(storage@, r.offset as int, *index_type, r.header),
    {
        // The region's length fits in a usize, which bounds the offsets below.
        let _len = storage.len();
        let offset = id * node_size;
        let header = NodeHeader::new(offset, index_type, storage);
        Node { id, offset, header }
    }

    /// Decodes the node stored at `offset`; its id is `offset / node_size`.
    pub fn new_with_offset(offset: usize, node_size: usize, index_type: &IndexType, storage: &Storage) -> (r: Node)
        requires
            index_type.is_supported(),
            node_size > 0,
            offset + spec_header_size(*index_type) <= storage@.len(),
        ensures
            r.id == offset / node_size,
            r.offset == offset,
            header_decodes(storage@, offset as int, *index_type, r.header),
    {
        let header = NodeHeader::new(offset, index_type, storage);
        Node { id: offset / node_size, offset, header }
    }
}

} // verus!
