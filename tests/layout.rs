use annoy_rs::index::get_nth_descendant_id;
use annoy_rs::{AnnoyIndex, IndexType, Node, Storage};

fn put_i32(buf: &mut [u8], off: usize, v: i32) {
    buf[off..off + 4].copy_from_slice(&v.to_le_bytes());
}

fn put_f32(buf: &mut [u8], off: usize, v: f32) {
    buf[off..off + 4].copy_from_slice(&v.to_le_bytes());
}

/// An angular index of dimension 1 (nodes of 16 bytes): two items and a root
/// bucket listing both.
fn angular_bytes() -> Vec<u8> {
    let mut b = vec![0u8; 48];
    put_i32(&mut b, 0, 1);
    put_f32(&mut b, 12, 0.5);
    put_i32(&mut b, 16, 1);
    put_f32(&mut b, 28, -2.0);
    put_i32(&mut b, 32, 2);
    put_i32(&mut b, 36, 1);
    put_i32(&mut b, 40, 0);
    b
}

fn mapped(bytes: &[u8]) -> Storage {
    let mut m = memmap2::MmapOptions::new().len(bytes.len()).map_anon().unwrap();
    m.copy_from_slice(bytes);
    Storage::Mapped(m.make_read_only().unwrap())
}

#[test]
fn mapped_storage_reads_the_mapped_bytes() {
    let storage = mapped(&[9, 0, 0, 0, 0xff, 0xff, 0xff, 0xff]);
    assert_eq!(storage.len(), 8);
    assert_eq!(storage.read_i32(0), 9);
    assert_eq!(storage.read_i32(4), -1);
}

#[test]
fn load_from_mapped_storage() {
    let index = AnnoyIndex::load_from_storage(1, mapped(&angular_bytes()), IndexType::Angular).unwrap();
    assert_eq!(index.node_size, 16);
    assert_eq!(index.size, 2);
    assert_eq!(index.roots, vec![2]);
    assert_eq!(index.get_item_vector(1), vec![(-2.0f32).to_bits()]);
    let r = index.get_nearest(|_v: Vec<u32>, _x: u32| 0u32, |v: Vec<u32>| v[0], 5, -1, true);
    assert_eq!(r.count, 2);
    assert_eq!(r.id_list, vec![1, 0]);
}

#[test]
fn node_from_offset_and_nth_descendant() {
    let storage = Storage::Buffer(angular_bytes());
    let node = Node::new_with_offset(32, 16, &IndexType::Angular, &storage);
    assert_eq!(node.id, 2);
    assert_eq!(node.header.get_n_descendant(), 2);
    assert_eq!(node.header.get_children_id_slice(), [1, 0]);
    let node = Node::new_with_id(1, 16, &IndexType::Angular, &storage);
    assert_eq!(node.offset, 16);
    assert_eq!(get_nth_descendant_id(&storage, 32, 4, 0), 1);
    assert_eq!(get_nth_descendant_id(&storage, 32, 4, 1), 0);
}

/// Two items, then nodes 2 and 3 with descendant count 4 (above the bucket
/// bound 3 of dimension 1) and the given child ids.
fn split_bytes(children2: [i32; 2], children3: [i32; 2], n_desc2: i32) -> Vec<u8> {
    let mut b = angular_bytes();
    b.truncate(32);
    b.extend(vec![0u8; 32]);
    put_i32(&mut b, 32, n_desc2);
    put_i32(&mut b, 36, children2[0]);
    put_i32(&mut b, 40, children2[1]);
    put_i32(&mut b, 48, 4);
    put_i32(&mut b, 52, children3[0]);
    put_i32(&mut b, 56, children3[1]);
    b
}

#[test]
fn cyclic_split_nodes_terminate() {
    let index = AnnoyIndex::load_from_buffer(split_bytes([3, 2], [2, 3], 4), 1, IndexType::Angular).unwrap();
    assert_eq!(index.roots, vec![3, 2]);
    let r = index.get_nearest(|_v: Vec<u32>, _x: u32| 1.0f32.to_bits(), |v: Vec<u32>| v[0], 5, 100, true);
    assert_eq!(r.count, 0);
}

#[test]
fn out_of_range_children_are_skipped() {
    let index = AnnoyIndex::load_from_buffer(split_bytes([0, 0], [-4, 77], 1), 1, IndexType::Angular).unwrap();
    assert_eq!(index.roots, vec![3]);
    assert_eq!(index.size, 4);
    let r = index.get_nearest(|_v: Vec<u32>, _x: u32| 0u32, |v: Vec<u32>| v[0], 5, -1, false);
    assert_eq!(r.count, 0);
    assert!(r.distance_list.is_empty());
}

#[test]
fn split_root_reaches_both_items() {
    let index = AnnoyIndex::load_from_buffer(split_bytes([0, 0], [1, 0], 1), 1, IndexType::Angular).unwrap();
    let r = index.get_nearest(|_v: Vec<u32>, _x: u32| 1.0f32.to_bits(), |v: Vec<u32>| v[0], 5, -1, true);
    assert_eq!(r.id_list, vec![1, 0]);
    assert_eq!(r.distance_list, vec![(-2.0f32).to_bits(), 0.5f32.to_bits()]);
}
