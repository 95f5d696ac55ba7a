use image_sorter::segments::{get_segments, join_segments, SEPARATOR};

fn strings(parts: &[&str]) -> Vec<String> {
    parts.iter().map(|s| s.to_string()).collect()
}

#[test]
fn separator_is_two_dashes() {
    assert_eq!(SEPARATOR, "--");
}

#[test]
fn segments_of_join_are_the_original_list() {
    let joined = join_segments(&strings(&["a", "b"]));
    assert_eq!(get_segments(&joined), strings(&["a", "b"]));
}

#[test]
fn join_appends_a_trailing_separator() {
    assert_eq!(join_segments(&strings(&["a", "b"])), "a--b--");
    assert_eq!(join_segments(&strings(&["tag"])), "tag--");
    assert_eq!(join_segments(&strings(&[])), "");
}

#[test]
fn segments_discard_empty_pieces() {
    assert_eq!(get_segments("a--b"), strings(&["a", "b"]));
    assert_eq!(get_segments("--a----b--"), strings(&["a", "b"]));
    assert_eq!(get_segments(""), strings(&[]));
    assert_eq!(get_segments("----"), strings(&[]));
}

#[test]
fn single_dashes_stay_inside_segments() {
    assert_eq!(get_segments("a-b--c"), strings(&["a-b", "c"]));
    assert_eq!(get_segments("a---b"), strings(&["a", "-b"]));
}

#[test]
fn resegmenting_a_joined_buffer_is_stable() {
    // normalization: segment, join, segment again; the segments are unchanged
    for buffer in ["one--two", "--x----y--", "plain", "a-b--c-d"] {
        let segs = get_segments(buffer);
        let rejoined = join_segments(&segs);
        assert_eq!(get_segments(&rejoined), segs);
    }
}

#[test]
fn completion_replaces_the_last_segment() {
    // the caller's tab-completion protocol: replace the last segment with
    // the accepted suggestion, rejoin with a trailing separator
    let mut segs = get_segments("linux--war");
    let last = segs.last_mut().unwrap();
    *last = "warframe".to_string();
    assert_eq!(join_segments(&segs), "linux--warframe--");
}
