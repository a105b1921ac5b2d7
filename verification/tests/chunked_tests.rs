use worf::chunked::ChunkedReadOnlyHashMap;

fn b(s: &str) -> Vec<u8> {
    s.as_bytes().to_vec()
}

fn five_entries() -> Vec<(Vec<u8>, Vec<i64>)> {
    vec![
        (b("d.mp3"), vec![4]),
        (b("b.mp3"), vec![2]),
        (b("e.mp3"), vec![5]),
        (b("a.mp3"), vec![1]),
        (b("c.mp3"), vec![3]),
    ]
}

#[test]
fn entries_are_sorted_into_fixed_pages() {
    let m = ChunkedReadOnlyHashMap::new(five_entries(), 2);
    assert_eq!(m.total_len(), 5);
    assert_eq!(m.num_chunks(), 3);
    let first = m.get_chunk_at_index(0).unwrap();
    assert_eq!(first, &vec![(b("a.mp3"), vec![1]), (b("b.mp3"), vec![2])]);
    let last = m.get_chunk_at_index(2).unwrap();
    assert_eq!(last, &vec![(b("e.mp3"), vec![5])]);
    assert!(m.get_chunk_at_index(3).is_none());
}

#[test]
fn get_returns_the_stored_value() {
    let m = ChunkedReadOnlyHashMap::new(five_entries(), 2);
    assert_eq!(m.get(b("a.mp3")), Some(vec![1]));
    assert_eq!(m.get(b("c.mp3")), Some(vec![3]));
    assert_eq!(m.get(b("e.mp3")), Some(vec![5]));
    assert_eq!(m.get(b("zzz.mp3")), None);
}

#[test]
fn chunk_index_follows_the_sorted_order() {
    let m = ChunkedReadOnlyHashMap::new(five_entries(), 2);
    assert_eq!(m.get_chunk_index(&b("a.mp3")), Some(0));
    assert_eq!(m.get_chunk_index(&b("c.mp3")), Some(1));
    assert_eq!(m.get_chunk_index(&b("e.mp3")), Some(2));
    assert_eq!(m.get_chunk_index(&b("zzz.mp3")), None);
}

#[test]
fn exact_multiples_fill_every_page() {
    let m = ChunkedReadOnlyHashMap::new(
        vec![(b("a"), vec![1]), (b("b"), vec![2]), (b("c"), vec![3]), (b("d"), vec![4])],
        2,
    );
    assert_eq!(m.num_chunks(), 2);
    assert_eq!(m.get(b("d")), Some(vec![4]));
}

#[test]
fn an_empty_map_has_no_pages() {
    let m = ChunkedReadOnlyHashMap::new(vec![], 50);
    assert_eq!(m.num_chunks(), 0);
    assert_eq!(m.total_len(), 0);
    assert_eq!(m.get(b("a")), None);
}
