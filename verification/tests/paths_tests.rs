use worf::paths::{join_base, lex_le_bytes, merge_song_page, strip_base};

fn b(s: &str) -> Vec<u8> {
    s.as_bytes().to_vec()
}

#[test]
fn join_inserts_a_separator() {
    assert_eq!(join_base(&b("/music"), &b("a/b.mp3")), b("/music/a/b.mp3"));
}

#[test]
fn join_keeps_a_trailing_separator() {
    assert_eq!(join_base(&b("/music/"), &b("a.mp3")), b("/music/a.mp3"));
}

#[test]
fn join_lets_an_absolute_file_stand_alone() {
    assert_eq!(join_base(&b("/music"), &b("/other/a.mp3")), b("/other/a.mp3"));
}

#[test]
fn join_with_empty_base_is_the_file() {
    assert_eq!(join_base(&b(""), &b("a.mp3")), b("a.mp3"));
}

#[test]
fn strip_undoes_join() {
    let joined = join_base(&b("/music"), &b("a/b.mp3"));
    assert_eq!(strip_base(&b("/music"), &joined), Some(b("a/b.mp3")));
}

#[test]
fn strip_accepts_a_trailing_separator_on_the_base() {
    assert_eq!(strip_base(&b("/music/"), &b("/music/a.mp3")), Some(b("a.mp3")));
}

#[test]
fn strip_of_the_base_itself_is_empty() {
    assert_eq!(strip_base(&b("/music"), &b("/music")), Some(b("")));
}

#[test]
fn strip_rejects_non_prefixes() {
    assert_eq!(strip_base(&b("/music"), &b("/other/a.mp3")), None);
    assert_eq!(strip_base(&b("/music"), &b("/musical/a.mp3")), None);
    assert_eq!(strip_base(&b("/music"), &b("/mus")), None);
}

#[test]
fn lex_order_is_bytewise_with_prefixes_first() {
    assert!(lex_le_bytes(&b("a"), &b("b")));
    assert!(!lex_le_bytes(&b("b"), &b("a")));
    assert!(lex_le_bytes(&b("a"), &b("a")));
    assert!(lex_le_bytes(&b("a"), &b("ab")));
    assert!(!lex_le_bytes(&b("ab"), &b("a")));
    assert!(lex_le_bytes(&b(""), &b("a")));
}

#[test]
fn merged_pages_are_sorted_and_unique() {
    let mut songs: Vec<Vec<u8>> = Vec::new();
    merge_song_page(&mut songs, &vec![b("c.mp3"), b("a.mp3")]);
    merge_song_page(&mut songs, &vec![b("b.mp3"), b("a.mp3"), b("c.mp3")]);
    assert_eq!(songs, vec![b("a.mp3"), b("b.mp3"), b("c.mp3")]);
}

#[test]
fn merging_an_empty_page_changes_nothing() {
    let mut songs = vec![b("a.mp3")];
    merge_song_page(&mut songs, &vec![]);
    assert_eq!(songs, vec![b("a.mp3")]);
}
