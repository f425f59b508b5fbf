use annoy_rs::float_bits::{is_nan, negate, to_order_key};
use annoy_rs::search::{rank_candidates, select_nearest};
use annoy_rs::{AnnoyIndex, IndexType, LoadError, NodeHeader, NodeHeaderAngular, NodeHeaderDot, NodeHeaderMinkowski, Storage};

const DIM: usize = 2;
const EUCLIDEAN_NODE: usize = 24;

fn put_i32(buf: &mut [u8], off: usize, v: i32) {
    buf[off..off + 4].copy_from_slice(&v.to_le_bytes());
}

fn put_f32(buf: &mut [u8], off: usize, v: f32) {
    buf[off..off + 4].copy_from_slice(&v.to_le_bytes());
}

/// A Euclidean node of dimension 2: descendant count, bias, slot ids, vector.
fn euclidean_node(n_desc: i32, bias: f32, slot: &[i32], v: Option<[f32; 2]>) -> Vec<u8> {
    let mut b = vec![0u8; EUCLIDEAN_NODE];
    put_i32(&mut b, 0, n_desc);
    put_f32(&mut b, 4, bias);
    for (j, &id) in slot.iter().enumerate() {
        put_i32(&mut b, 8 + 4 * j, id);
    }
    if let Some(v) = v {
        put_f32(&mut b, 16, v[0]);
        put_f32(&mut b, 20, v[1]);
    }
    b
}

const ITEMS: [[f32; 2]; 4] = [[0.0, 0.0], [1.0, 0.0], [0.0, 2.0], [3.0, 3.0]];

fn bucket_index_bytes() -> Vec<u8> {
    let mut bytes = Vec::new();
    for v in ITEMS.iter() {
        bytes.extend(euclidean_node(1, 0.0, &[], Some(*v)));
    }
    bytes.extend(euclidean_node(4, 0.0, &[0, 1, 2, 3], None));
    bytes
}

fn dot(a: &[f32], b: &[f32]) -> f32 {
    a.iter().zip(b.iter()).map(|(x, y)| x * y).sum()
}

fn floats(bits: &[u32]) -> Vec<f32> {
    bits.iter().map(|&b| f32::from_bits(b)).collect()
}

fn euclidean_query(
    index: &AnnoyIndex,
    q: [f32; 2],
    n: usize,
    search_k: i32,
    with_distances: bool,
) -> annoy_rs::SearchResult {
    let margin = move |v: Vec<u32>, extra: u32| -> u32 {
        (f32::from_bits(extra) + dot(&floats(&v), &q)).to_bits()
    };
    let distance = move |v: Vec<u32>| -> u32 {
        floats(&v).iter().zip(q.iter()).map(|(x, y)| (x - y) * (x - y)).sum::<f32>().to_bits()
    };
    index.get_nearest(margin, distance, n, search_k, with_distances)
}

#[test]
fn hamming_is_unsupported() {
    let r = AnnoyIndex::load_from_buffer(bucket_index_bytes(), DIM, IndexType::Hamming);
    assert!(matches!(r, Err(LoadError::UnsupportedIndexType)));
}

#[test]
fn empty_buffer_is_corrupt() {
    let r = AnnoyIndex::load_from_buffer(Vec::new(), DIM, IndexType::Euclidean);
    assert!(matches!(r, Err(LoadError::CorruptFormat)));
}

#[test]
fn partial_node_is_corrupt() {
    let mut bytes = bucket_index_bytes();
    bytes.push(0);
    let r = AnnoyIndex::load_from_buffer(bytes, DIM, IndexType::Euclidean);
    assert!(matches!(r, Err(LoadError::CorruptFormat)));
}

#[test]
fn root_count_beyond_nodes_is_corrupt() {
    let mut bytes = bucket_index_bytes();
    put_i32(&mut bytes, 4 * EUCLIDEAN_NODE, 6);
    let r = AnnoyIndex::load_from_buffer(bytes, DIM, IndexType::Euclidean);
    assert!(matches!(r, Err(LoadError::CorruptFormat)));
    let mut bytes = bucket_index_bytes();
    put_i32(&mut bytes, 4 * EUCLIDEAN_NODE, 0);
    let r = AnnoyIndex::load_from_buffer(bytes, DIM, IndexType::Euclidean);
    assert!(matches!(r, Err(LoadError::CorruptFormat)));
}

#[test]
fn load_bucket_root() {
    let index = AnnoyIndex::load_from_buffer(bucket_index_bytes(), DIM, IndexType::Euclidean).unwrap();
    assert_eq!(index.dimension, 2);
    assert_eq!(index.node_size, 24);
    assert_eq!(index.size, 4);
    assert_eq!(index.n_nodes, 5);
    assert_eq!(index.roots, vec![4]);
    assert_eq!(index.max_descendants(), 4);
}

#[test]
fn item_vector_round_trip() {
    let index = AnnoyIndex::load_from_buffer(bucket_index_bytes(), DIM, IndexType::Euclidean).unwrap();
    for (i, v) in ITEMS.iter().enumerate() {
        let bits = index.get_item_vector(i as u64);
        assert_eq!(bits, vec![v[0].to_bits(), v[1].to_bits()]);
    }
    assert_eq!(floats(&index.get_item_vector(3)), vec![3.0, 3.0]);
}

fn duplicated_roots_bytes(duplicate: bool) -> Vec<u8> {
    let mut bytes = Vec::new();
    for v in ITEMS.iter() {
        bytes.extend(euclidean_node(1, 0.0, &[], Some(*v)));
    }
    bytes.extend(euclidean_node(4, 0.0, &[0, 1, 2, 3], None));
    bytes.extend(euclidean_node(4, 0.0, &[3, 2, 1, 0], None));
    if duplicate {
        bytes.extend(euclidean_node(4, 0.0, &[0, 1, 2, 3], None));
    } else {
        bytes.extend(euclidean_node(4, 0.0, &[1, 0, 3, 2], None));
    }
    bytes
}

#[test]
fn duplicated_trailing_root_is_dropped() {
    let index = AnnoyIndex::load_from_buffer(duplicated_roots_bytes(true), DIM, IndexType::Euclidean).unwrap();
    assert_eq!(index.roots, vec![6, 5]);
    let index = AnnoyIndex::load_from_buffer(duplicated_roots_bytes(false), DIM, IndexType::Euclidean).unwrap();
    assert_eq!(index.roots, vec![6, 5, 4]);
}

#[test]
fn single_root_is_kept() {
    let index = AnnoyIndex::load_from_buffer(bucket_index_bytes(), DIM, IndexType::Euclidean).unwrap();
    assert_eq!(index.roots.len(), 1);
}

#[test]
fn self_query_comes_first_with_zero_distance() {
    let index = AnnoyIndex::load_from_buffer(bucket_index_bytes(), DIM, IndexType::Euclidean).unwrap();
    let r = euclidean_query(&index, ITEMS[2], 3, -1, true);
    assert_eq!(r.count, 3);
    assert_eq!(r.id_list, vec![2, 0, 1]);
    assert_eq!(floats(&r.distance_list), vec![0.0, 4.0, 5.0]);
    assert!(r.is_distance_included);
}

#[test]
fn distances_are_non_decreasing_and_count_is_bounded() {
    let index = AnnoyIndex::load_from_buffer(bucket_index_bytes(), DIM, IndexType::Euclidean).unwrap();
    let r = euclidean_query(&index, [2.5, 1.0], 10, -1, true);
    assert_eq!(r.count, 4);
    assert_eq!(r.id_list.len(), 4);
    let d = floats(&r.distance_list);
    for w in d.windows(2) {
        assert!(w[0] <= w[1]);
    }
    let r = euclidean_query(&index, [2.5, 1.0], 0, -1, true);
    assert_eq!(r.count, 0);
    assert!(r.id_list.is_empty());
}

#[test]
fn distances_omitted_when_not_asked() {
    let index = AnnoyIndex::load_from_buffer(bucket_index_bytes(), DIM, IndexType::Euclidean).unwrap();
    let r = euclidean_query(&index, [1.0, 1.0], 3, -1, false);
    assert_eq!(r.count, 3);
    assert!(!r.is_distance_included);
    assert_eq!(r.distance_list.len(), 0);
}

#[test]
fn repeated_queries_agree() {
    let index = AnnoyIndex::load_from_buffer(bucket_index_bytes(), DIM, IndexType::Euclidean).unwrap();
    let a = euclidean_query(&index, [0.2, 1.9], 4, -1, true);
    let b = euclidean_query(&index, [0.2, 1.9], 4, -1, true);
    assert_eq!(a.id_list, b.id_list);
    assert_eq!(a.distance_list, b.distance_list);
    assert_eq!(a.id_list[0], 2);
}

/// Six items split by the hyperplane x = 0 into two buckets under one root.
fn split_index_bytes() -> Vec<u8> {
    let items: [[f32; 2]; 6] = [[-1.0, 0.0], [-2.0, 1.0], [-3.0, -1.0], [1.0, 0.0], [2.0, 1.0], [3.0, -1.0]];
    let mut bytes = Vec::new();
    for v in items.iter() {
        bytes.extend(euclidean_node(1, 0.0, &[], Some(*v)));
    }
    bytes.extend(euclidean_node(3, 0.0, &[0, 1, 2], None));
    bytes.extend(euclidean_node(3, 0.0, &[3, 4, 5], None));
    bytes.extend(euclidean_node(6, 0.0, &[6, 7], Some([1.0, 0.0])));
    bytes
}

#[test]
fn budget_limits_traversal_to_the_near_side() {
    let index = AnnoyIndex::load_from_buffer(split_index_bytes(), DIM, IndexType::Euclidean).unwrap();
    assert_eq!(index.size, 6);
    assert_eq!(index.roots, vec![8]);
    assert_eq!(index.search_budget(2, -1), 2);
    assert_eq!(index.search_budget(2, 5), 5);
    let r = euclidean_query(&index, [1.5, 0.0], 6, -1, true);
    assert_eq!(r.count, 6);
    let r = euclidean_query(&index, [1.5, 0.0], 2, -1, true);
    assert_eq!(r.id_list, vec![3, 4]);
    let r = euclidean_query(&index, [-1.5, 0.0], 2, -1, true);
    assert_eq!(r.id_list, vec![0, 1]);
    let r = euclidean_query(&index, [1.5, 0.0], 1, 100, true);
    assert_eq!(r.count, 1);
    assert_eq!(r.id_list, vec![3]);
}

#[test]
fn nan_distances_are_not_ranked() {
    let ids = vec![10, 11, 12, 13];
    let raw = vec![2.0f32.to_bits(), f32::NAN.to_bits(), (-1.0f32).to_bits(), 0.5f32.to_bits()];
    let r = rank_candidates(&ids, &raw, 10, true);
    assert_eq!(r.count, 3);
    assert_eq!(r.id_list, vec![12, 13, 10]);
    assert_eq!(floats(&r.distance_list), vec![-1.0, 0.5, 2.0]);
    let r = rank_candidates(&ids, &raw, 2, false);
    assert_eq!(r.id_list, vec![12, 13]);
    assert!(r.distance_list.is_empty());
}

#[test]
fn selection_orders_by_float_value() {
    let raw = vec![(-0.5f32).to_bits(), 3.0f32.to_bits(), (-7.25f32).to_bits(), 0.0f32.to_bits()];
    let sel = select_nearest(&raw, 4);
    let positions: Vec<usize> = sel.iter().map(|e| e.0).collect();
    assert_eq!(positions, vec![2, 0, 3, 1]);
    let sel = select_nearest(&raw, 1);
    assert_eq!(sel, vec![(2, to_order_key((-7.25f32).to_bits()))]);
    assert!(select_nearest(&Vec::new(), 3).is_empty());
}

#[test]
fn float_bits_helpers() {
    assert!(is_nan(f32::NAN.to_bits()));
    assert!(!is_nan(f32::INFINITY.to_bits()));
    assert!(!is_nan(1.0f32.to_bits()));
    assert_eq!(negate(1.5f32.to_bits()), (-1.5f32).to_bits());
    assert_eq!(negate((-2.0f32).to_bits()), 2.0f32.to_bits());
    let values = [f32::MIN, -3.0, -0.0, 0.0, 1e-30, 2.0, f32::MAX, f32::INFINITY];
    for w in values.windows(2) {
        assert!(to_order_key(w[0].to_bits()) < to_order_key(w[1].to_bits()));
    }
    assert_eq!(to_order_key(f32::MAX.to_bits()), 0xff7f_ffff);
}

#[test]
fn header_sizes() {
    assert_eq!(NodeHeaderAngular::header_size(), 12);
    assert_eq!(NodeHeaderMinkowski::header_size(), 16);
    assert_eq!(NodeHeaderDot::header_size(), 16);
    assert_eq!(IndexType::Angular.header_size(), 12);
    assert_eq!(IndexType::Manhattan.offset_before_children(), 8);
    assert_eq!(IndexType::Dot.extra_offset(), 12);
}

#[test]
fn dot_header_decodes_fields() {
    let mut b = vec![0u8; 16];
    put_i32(&mut b, 0, 7);
    put_i32(&mut b, 4, -3);
    put_i32(&mut b, 8, 42);
    put_f32(&mut b, 12, 0.75);
    let storage = Storage::Buffer(b);
    let h = NodeHeader::new(0, &IndexType::Dot, &storage);
    assert_eq!(h.get_n_descendant(), 7);
    assert_eq!(h.get_children_id_slice(), [-3, 42]);
    assert_eq!(h.get_extra_bits(), 0.75f32.to_bits());
}

#[test]
fn storage_reads_little_endian() {
    let storage = Storage::Buffer(vec![0x01, 0x02, 0x03, 0x04, 0xfe, 0xff, 0xff, 0xff]);
    assert_eq!(storage.len(), 8);
    assert_eq!(storage.read_i32(0), 0x0403_0201);
    assert_eq!(storage.read_i32(4), -2);
    assert_eq!(storage.read_i32(1), 0xfe04_0302u32 as i32);
    assert_eq!(storage.read_f32_bits(4), 0xffff_fffe);
    assert_eq!(storage.read_i32_slice(0, 2), vec![0x0403_0201, -2]);
    assert_eq!(storage.read_f32_bits_slice(4, 1), vec![0xffff_fffe]);
}
