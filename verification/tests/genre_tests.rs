use worf::genre::{collapse_genres, track_weights_from_songs, WeightError, WeightTable, WEIGHT_LIMIT};

fn b(s: &str) -> Vec<u8> {
    s.as_bytes().to_vec()
}

fn table(dim: usize, entries: &[(&str, &[i64])]) -> WeightTable {
    let mut t = WeightTable::new(dim);
    for (name, weights) in entries {
        t.insert(b(name), weights.to_vec()).unwrap();
    }
    t
}

#[test]
fn empty_genre_string_collapses_to_zero() {
    let t = table(3, &[("rock", &[10, 20, 30])]);
    assert_eq!(collapse_genres(&t, &b("")), vec![0, 0, 0]);
}

#[test]
fn collapse_ignores_tag_order() {
    let t = table(2, &[("rock", &[10, 0]), ("jazz", &[0, 20])]);
    let one = collapse_genres(&t, &b("rock,jazz"));
    let two = collapse_genres(&t, &b("jazz,rock"));
    assert_eq!(one, two);
}

#[test]
fn collapse_is_the_elementwise_mean() {
    let t = table(2, &[("rock", &[10, 0]), ("jazz", &[0, 21])]);
    assert_eq!(collapse_genres(&t, &b("rock,jazz")), vec![5, 10]);
}

#[test]
fn collapse_truncates_toward_zero() {
    let t = table(1, &[("down", &[-3]), ("flat", &[0])]);
    assert_eq!(collapse_genres(&t, &b("down,flat")), vec![-1]);
}

#[test]
fn unknown_tags_are_dropped_not_errors() {
    let t = table(2, &[("rock", &[10, 4])]);
    assert_eq!(
        collapse_genres(&t, &b("rock,entirely made up")),
        collapse_genres(&t, &b("rock"))
    );
}

#[test]
fn unresolvable_tags_collapse_to_zero() {
    let t = table(2, &[("rock", &[10, 4])]);
    assert_eq!(collapse_genres(&t, &b("nope,also nope")), vec![0, 0]);
}

#[test]
fn empty_segments_between_commas_never_resolve() {
    let t = table(1, &[("rock", &[8])]);
    assert_eq!(collapse_genres(&t, &b("rock,,rock")), vec![8]);
}

#[test]
fn duplicate_tags_count_twice() {
    let t = table(1, &[("rock", &[9]), ("jazz", &[0])]);
    // (9 + 9 + 0) / 3 = 6, while a single rock tag with jazz gives 4.
    assert_eq!(collapse_genres(&t, &b("rock,rock,jazz")), vec![6]);
    assert_eq!(collapse_genres(&t, &b("rock,jazz")), vec![4]);
}

#[test]
fn insert_rejects_wrong_dimension() {
    let mut t = WeightTable::new(2);
    assert_eq!(t.insert(b("rock"), vec![1]), Err(WeightError::WrongDimension));
}

#[test]
fn insert_rejects_out_of_range_weights() {
    let mut t = WeightTable::new(1);
    assert_eq!(
        t.insert(b("rock"), vec![WEIGHT_LIMIT + 1]),
        Err(WeightError::OutOfRange)
    );
    assert_eq!(
        t.insert(b("rock"), vec![-WEIGHT_LIMIT - 1]),
        Err(WeightError::OutOfRange)
    );
    assert_eq!(t.insert(b("rock"), vec![WEIGHT_LIMIT]), Ok(()));
}

#[test]
fn insert_rejects_duplicate_keys() {
    let mut t = WeightTable::new(1);
    t.insert(b("rock"), vec![1]).unwrap();
    assert_eq!(t.insert(b("rock"), vec![2]), Err(WeightError::DuplicateKey));
    assert_eq!(t.get(&b("rock")), Some(&vec![1]));
}

#[test]
fn get_finds_only_present_keys() {
    let t = table(1, &[("rock", &[1]), ("jazz", &[2])]);
    assert_eq!(t.get(&b("jazz")), Some(&vec![2]));
    assert_eq!(t.get(&b("metal")), None);
    assert!(t.contains_key(&b("rock")));
    assert!(!t.contains_key(&b("metal")));
}

#[test]
fn track_weights_collapse_each_tagged_song() {
    let genres = table(1, &[("rock", &[10]), ("jazz", &[20])]);
    let songs = vec![
        (b("one.mp3"), Some(b("rock,jazz"))),
        (b("two.mp3"), None),
        (b("three.mp3"), Some(b("jazz"))),
    ];
    let tracks = track_weights_from_songs(&genres, &songs);
    assert_eq!(tracks.get(&b("one.mp3")), Some(&vec![15]));
    assert_eq!(tracks.get(&b("two.mp3")), None);
    assert_eq!(tracks.get(&b("three.mp3")), Some(&vec![20]));
    assert_eq!(tracks.len(), 2);
}

#[test]
fn track_weights_first_entry_per_path_wins() {
    let genres = table(1, &[("rock", &[10]), ("jazz", &[20])]);
    let songs = vec![
        (b("one.mp3"), Some(b("rock"))),
        (b("one.mp3"), Some(b("jazz"))),
    ];
    let tracks = track_weights_from_songs(&genres, &songs);
    assert_eq!(tracks.get(&b("one.mp3")), Some(&vec![10]));
}
