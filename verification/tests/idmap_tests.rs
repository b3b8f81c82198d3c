//! The bidirectional id/name map and its hex-prefix lookup.

use walkdetector::idmap::{is_virtual, to_hex, CoreMemIdMap, IdMapError, MemIdMap};

#[test]
fn hex_encoding_is_two_lowercase_digits_per_byte() {
    assert_eq!(to_hex(&vec![0x0f, 0xa0]), b"0fa0".to_vec());
    assert_eq!(to_hex(&vec![]), b"".to_vec());
    assert_eq!(to_hex(&vec![0x00, 0xff]), b"00ff".to_vec());
}

#[test]
fn virtual_group_is_the_high_byte() {
    assert!(is_virtual(2u64 << 56));
    assert!(is_virtual((2u64 << 56) | 12345));
    assert!(!is_virtual(12345));
    assert!(!is_virtual(1u64 << 56));
}

#[test]
fn insert_and_lookup_both_directions() {
    let mut m = CoreMemIdMap::new();
    m.insert_vertex_id_name(1, b"one".to_vec());
    m.insert_vertex_id_name(2, b"two".to_vec());
    assert_eq!(m.lookup_vertex_id(&b"one".to_vec()), Some(1));
    assert_eq!(m.lookup_vertex_id(&b"two".to_vec()), Some(2));
    assert_eq!(m.lookup_vertex_name(1), Some(b"one".to_vec()));
    assert_eq!(m.lookup_vertex_name(3), None);
    assert!(m.has_vertex_name(&b"one".to_vec()));
    assert!(!m.has_vertex_name(&b"three".to_vec()));
    assert!(m.has_vertex_id(2));
    assert!(!m.has_vertex_id(9));
}

#[test]
fn reinserting_an_id_replaces_its_name_but_keeps_the_old_reverse_entry() {
    let mut m = CoreMemIdMap::new();
    m.insert_vertex_id_name(1, b"one".to_vec());
    m.insert_vertex_id_name(1, b"uno".to_vec());
    assert_eq!(m.lookup_vertex_name(1), Some(b"uno".to_vec()));
    assert_eq!(m.lookup_vertex_id(&b"uno".to_vec()), Some(1));
    // The stale reverse entry stays, as each direction replaces per key.
    assert_eq!(m.lookup_vertex_id(&b"one".to_vec()), Some(1));
}

#[test]
fn range_lookup_and_removal() {
    let mut m = CoreMemIdMap::new();
    m.insert_vertex_id_name(1, b"a".to_vec());
    m.insert_vertex_id_name(5, b"b".to_vec());
    m.insert_vertex_id_name(9, b"c".to_vec());
    let range = m.lookup_range(1, 5);
    assert_eq!(range.len(), 2);
    assert!(range.iter().any(|(id, n)| *id == 1 && n == b"a"));
    assert!(range.iter().any(|(id, n)| *id == 5 && n == b"b"));
    let removed = m.remove_range(0, 5).unwrap();
    assert_eq!(removed.len(), 2);
    assert!(!m.has_vertex_id(1));
    assert!(!m.has_vertex_id(5));
    assert!(m.has_vertex_id(9));
    assert!(!m.has_vertex_name(&b"a".to_vec()));
    assert!(m.has_vertex_name(&b"c".to_vec()));
}

#[test]
fn hex_prefix_lookup_respects_the_virtual_group() {
    let mut m = CoreMemIdMap::new();
    m.insert_vertex_id_name(5, vec![0xac]);
    m.insert_vertex_id_name(2u64 << 56, vec![0xab]);
    // A partial prefix skips the virtual vertex.
    let partial = m.lookup_vertexes_by_hex_prefix(&b"a".to_vec(), 10).unwrap();
    assert_eq!(partial, vec![vec![0xac]]);
    // A full-length prefix finds it.
    let full = m.lookup_vertexes_by_hex_prefix(&b"ab".to_vec(), 10).unwrap();
    assert_eq!(full, vec![vec![0xab]]);
    // The limit caps the result count.
    let limited = m.lookup_vertexes_by_hex_prefix(&b"a".to_vec(), 0).unwrap();
    assert_eq!(limited.len(), 0);
    // A non-hex character is rejected.
    assert_eq!(
        m.lookup_vertexes_by_hex_prefix(&b"g".to_vec(), 10),
        Err(IdMapError::InvalidHexPrefix)
    );
}

#[test]
fn mem_id_map_wraps_the_core() {
    let mut m = MemIdMap::new();
    m.insert(7, b"seven".to_vec());
    assert_eq!(m.core_map().lookup_vertex_id(&b"seven".to_vec()), Some(7));
    let removed = m.remove_range(7, 7).unwrap();
    assert_eq!(removed, vec![b"seven".to_vec()]);
    assert!(!m.core_map().has_vertex_id(7));
}

#[test]
fn range_lookup_is_in_ascending_id_order() {
    let mut m = CoreMemIdMap::new();
    m.insert_vertex_id_name(9, b"c".to_vec());
    m.insert_vertex_id_name(1, b"a".to_vec());
    m.insert_vertex_id_name(5, b"b".to_vec());
    let range = m.lookup_range(0, 100);
    let ids: Vec<u64> = range.iter().map(|(id, _)| *id).collect();
    assert_eq!(ids, vec![1, 5, 9]);
}

#[test]
fn removed_names_come_in_ascending_order_of_their_former_ids() {
    let mut m = CoreMemIdMap::new();
    m.insert_vertex_id_name(9, b"c".to_vec());
    m.insert_vertex_id_name(1, b"a".to_vec());
    m.insert_vertex_id_name(5, b"b".to_vec());
    let removed = m.remove_range(1, 9).unwrap();
    assert_eq!(removed, vec![b"a".to_vec(), b"b".to_vec(), b"c".to_vec()]);
    assert!(!m.has_vertex_name(&b"a".to_vec()));
    assert!(!m.has_vertex_name(&b"b".to_vec()));
    assert!(!m.has_vertex_name(&b"c".to_vec()));
}
