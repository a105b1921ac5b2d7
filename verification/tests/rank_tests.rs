use worf::genre::WeightTable;
use worf::rank::closest_to_genre_songs;

fn b(s: &str) -> Vec<u8> {
    s.as_bytes().to_vec()
}

fn line_library() -> WeightTable {
    // Five tracks on a line: their single-axis weights are 0, 1, 2, 3, 4.
    let mut t = WeightTable::new(1);
    t.insert(b("t0"), vec![0]).unwrap();
    t.insert(b("t1"), vec![1]).unwrap();
    t.insert(b("t2"), vec![2]).unwrap();
    t.insert(b("t3"), vec![3]).unwrap();
    t.insert(b("t4"), vec![4]).unwrap();
    t
}

#[test]
fn nearest_first_around_the_pin() {
    // Pin on the middle track: the two neighbours come first, the two ends
    // last, ties broken by the candidates' own order.
    let t = line_library();
    let anchors = vec![b("t2")];
    let candidates = vec![b("t0"), b("t1"), b("t3"), b("t4")];
    let ranked = closest_to_genre_songs(&anchors, &candidates, &t);
    assert_eq!(ranked, vec![b("t1"), b("t3"), b("t0"), b("t4")]);
}

#[test]
fn ranking_is_deterministic() {
    let t = line_library();
    let anchors = vec![b("t2")];
    let candidates = vec![b("t4"), b("t0"), b("t3"), b("t1")];
    let one = closest_to_genre_songs(&anchors, &candidates, &t);
    let two = closest_to_genre_songs(&anchors, &candidates, &t);
    assert_eq!(one, two);
}

#[test]
fn missing_candidates_rank_as_the_zero_vector() {
    let mut t = WeightTable::new(1);
    t.insert(b("anchor"), vec![5]).unwrap();
    t.insert(b("near"), vec![4]).unwrap();
    t.insert(b("zeroed"), vec![0]).unwrap();
    let anchors = vec![b("anchor")];
    let candidates = vec![b("ghostly"), b("near"), b("zeroed")];
    let ranked = closest_to_genre_songs(&anchors, &candidates, &t);
    // "ghostly" has no entry and ranks as [0]: as far as "zeroed", and
    // before it only because it came first.
    assert_eq!(ranked, vec![b("near"), b("ghostly"), b("zeroed")]);
}

#[test]
fn anchors_without_weights_are_excluded() {
    // No anchor resolves, so every candidate is at distance zero and the
    // original order is kept.
    let t = line_library();
    let anchors = vec![b("unknown")];
    let candidates = vec![b("t3"), b("t0"), b("t2")];
    let ranked = closest_to_genre_songs(&anchors, &candidates, &t);
    assert_eq!(ranked, candidates);
}

#[test]
fn nearest_anchor_decides_with_several_anchors() {
    let t = line_library();
    let anchors = vec![b("t0"), b("t4")];
    let candidates = vec![b("t2"), b("t1"), b("t3")];
    // Distances to the nearest anchor: t2 -> 4, t1 -> 1, t3 -> 1.
    let ranked = closest_to_genre_songs(&anchors, &candidates, &t);
    assert_eq!(ranked, vec![b("t1"), b("t3"), b("t2")]);
}

#[test]
fn no_candidates_rank_to_nothing() {
    let t = line_library();
    let ranked = closest_to_genre_songs(&vec![b("t2")], &vec![], &t);
    assert!(ranked.is_empty());
}
