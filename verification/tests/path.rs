use tree2fs_rs::path::{join_segments, push_segment};

fn joined(base: &str, segment: &str) -> String {
    let mut buf: Vec<char> = base.chars().collect();
    push_segment(&mut buf, segment);
    buf.into_iter().collect()
}

#[test]
fn segment_goes_behind_one_separator() {
    assert_eq!(joined("out", "src"), "out/src");
    assert_eq!(joined("out/", "src"), "out/src");
    assert_eq!(joined("", "src"), "src");
    assert_eq!(joined("/", "src"), "/src");
    assert_eq!(joined("a/b", "c.txt"), "a/b/c.txt");
    assert_eq!(joined("out", ""), "out/");
    assert_eq!(joined("", ""), "");
}

#[test]
fn segments_are_joined_in_order() {
    let segments: Vec<String> = ["a", "b", "c.txt"].iter().map(|s| s.to_string()).collect();
    assert_eq!(join_segments("out", &segments, 0, 3), "out/a/b/c.txt");
    assert_eq!(join_segments("out", &segments, 1, 3), "out/b/c.txt");
    assert_eq!(join_segments("out", &segments, 0, 2), "out/a/b");
    assert_eq!(join_segments("out", &segments, 2, 2), "out");
    assert_eq!(join_segments("", &segments, 0, 3), "a/b/c.txt");
}

#[test]
fn joining_agrees_with_the_standard_library() {
    for base in ["", "out", "out/", "/", "./x"] {
        let segments: Vec<String> = ["a", "b", "c.txt"].iter().map(|s| s.to_string()).collect();
        let mut expected = std::path::PathBuf::from(base);
        for s in &segments {
            expected.push(s);
        }
        assert_eq!(join_segments(base, &segments, 0, 3), expected.to_string_lossy(), "{:?}", base);
    }
}
