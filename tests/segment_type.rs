use route::SegmentType;

#[test]
fn clone_segment_type() {
    assert_eq!("Wildcard", format!("{:?}", SegmentType::Wildcard));
    assert_eq!(SegmentType::Wildcard, SegmentType::Wildcard.clone());
}

#[test]
fn accept_empty_string_as_static() {
    assert_eq!(SegmentType::Static { path: "" }, "".into());
}

#[test]
fn accept_invalid_path_chars() {
    assert_eq!(SegmentType::Static { path: "$%^&#@$" }, "$%^&#@$".into());
}

#[test]
fn parse_static_segment_type() {
    assert_eq!(SegmentType::Static { path: "foo" }, "foo".into());
}

#[test]
fn parse_param_segment_type() {
    assert_eq!(SegmentType::Param { key: "foo" }, ":foo".into());
}

#[test]
fn parse_unnamed_param_segment_type() {
    assert_eq!(SegmentType::Param { key: "" }, ":".into());
}

#[test]
fn parse_consume_segment_type() {
    assert_eq!(SegmentType::Consume { key: "foo" }, "*foo".into());
}

#[test]
fn parse_wildcard_segment_type() {
    assert_eq!(SegmentType::Wildcard, "*".into());
}

#[test]
fn parse_star_prefixed_multibyte_key() {
    assert_eq!(SegmentType::Consume { key: "é" }, SegmentType::parse("*é"));
    assert_eq!(SegmentType::Param { key: "ü/x" }, SegmentType::parse(":ü/x"));
}
