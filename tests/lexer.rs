use route::lexer::{split_path, tokenize};
use route::SegmentType;

#[test]
fn split_keeps_empty_pieces() {
    assert_eq!(split_path("/users/"), vec!["", "users", ""]);
    assert_eq!(split_path("a//b"), vec!["a", "", "b"]);
    assert_eq!(split_path("/"), vec!["", ""]);
}

#[test]
fn split_of_empty_text_has_no_pieces() {
    assert!(split_path("").is_empty());
}

#[test]
fn tokenize_reads_each_segment() {
    let segs = tokenize("/users/:id/*rest").unwrap();
    assert_eq!(
        segs,
        vec![
            SegmentType::Static { path: "" },
            SegmentType::Static { path: "users" },
            SegmentType::Param { key: "id" },
            SegmentType::Consume { key: "rest" },
        ]
    );
    let segs = tokenize("static/*").unwrap();
    assert_eq!(segs, vec![SegmentType::Static { path: "static" }, SegmentType::Wildcard]);
}
