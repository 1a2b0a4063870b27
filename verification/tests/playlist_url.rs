use fair_shuffle::playlist_url::{
    get_playlist_id_from_url, nth_segment, try_get_playlist_id_from_url, PLAYLIST_ID_SEGMENT,
};

fn split_by_std(text: &str, n: usize) -> Option<String> {
    text.split(&['/', '?']).nth(n).map(|s| s.to_owned())
}

#[test]
fn id_is_taken_from_a_url_with_a_query() {
    let url = "https://open.spotify.com/playlist/4gnFxHWeDZveC6COR3HWnv?si=018f62b3b9bf4513";
    assert_eq!(get_playlist_id_from_url(url), "4gnFxHWeDZveC6COR3HWnv");
}

#[test]
fn id_is_taken_from_a_url_with_a_trailing_path() {
    let url = "https://open.spotify.com/playlist/37i9dQZF1DXcBWIGoYBM5M/tracks";
    assert_eq!(get_playlist_id_from_url(url), "37i9dQZF1DXcBWIGoYBM5M");
}

#[test]
fn id_is_taken_from_a_url_that_ends_with_it() {
    let url = "https://open.spotify.com/playlist/abc";
    assert_eq!(get_playlist_id_from_url(url), "abc");
    assert_eq!(try_get_playlist_id_from_url(url), Some("abc".to_string()));
}

#[test]
fn id_may_be_empty() {
    assert_eq!(try_get_playlist_id_from_url("https://host/playlist/?x"), Some(String::new()));
}

#[test]
fn id_segment_is_the_fifth() {
    assert_eq!(PLAYLIST_ID_SEGMENT, 4);
    assert_eq!(try_get_playlist_id_from_url("a/b/c/d/e/f"), Some("e".to_string()));
}

#[test]
fn short_url_has_no_id() {
    assert_eq!(try_get_playlist_id_from_url(""), None);
    assert_eq!(try_get_playlist_id_from_url("open.spotify.com/playlist/abc"), None);
    assert_eq!(try_get_playlist_id_from_url("https://open.spotify.com/playlist"), None);
}

#[test]
fn segments_of_the_empty_string() {
    assert_eq!(nth_segment("", 0), Some(String::new()));
    assert_eq!(nth_segment("", 1), None);
}

#[test]
fn adjacent_separators_enclose_an_empty_segment() {
    assert_eq!(nth_segment("a//b", 0), Some("a".to_string()));
    assert_eq!(nth_segment("a//b", 1), Some(String::new()));
    assert_eq!(nth_segment("a//b", 2), Some("b".to_string()));
    assert_eq!(nth_segment("a//b", 3), None);
}

#[test]
fn trailing_separator_gives_a_last_empty_segment() {
    assert_eq!(nth_segment("a?", 1), Some(String::new()));
    assert_eq!(nth_segment("a?", 2), None);
}

#[test]
fn segments_are_counted_in_characters_not_bytes() {
    let text = "caf\u{e9}/na\u{ef}ve?\u{1f3b5}/x";
    assert_eq!(nth_segment(text, 0), Some("caf\u{e9}".to_string()));
    assert_eq!(nth_segment(text, 1), Some("na\u{ef}ve".to_string()));
    assert_eq!(nth_segment(text, 2), Some("\u{1f3b5}".to_string()));
    assert_eq!(nth_segment(text, 3), Some("x".to_string()));
}

#[test]
fn segments_agree_with_splitting_by_the_standard_library() {
    let texts = [
        "",
        "/",
        "?",
        "a",
        "a/b?c",
        "//",
        "?/?",
        "https://open.spotify.com/playlist/4gnFxHWeDZveC6COR3HWnv?si=018f62b3b9bf4513",
        "x/\u{e9}?y/",
    ];
    for text in texts {
        for n in 0..8 {
            assert_eq!(nth_segment(text, n), split_by_std(text, n));
        }
    }
}
