use route::{InsertError, LexerError, MatchError, Router};

fn params(pairs: &[(&str, &str)]) -> Vec<(String, String)> {
    pairs.iter().map(|(k, v)| (k.to_string(), v.to_string())).collect()
}

#[test]
fn literal_route_round_trip() {
    let mut r = Router::new();
    assert_eq!(r.insert("/users/list", 7), Ok(()));
    let m = r.match_path("/users/list").unwrap();
    assert_eq!(*m.value, 7);
    assert!(m.params.is_empty());
}

#[test]
fn literal_route_wins_over_param_and_wildcard() {
    let mut r = Router::new();
    r.insert("/a/:x", 1).unwrap();
    r.insert("/a/*", 2).unwrap();
    r.insert("/a/b", 3).unwrap();
    let m = r.match_path("/a/b").unwrap();
    assert_eq!(*m.value, 3);
    assert!(m.params.is_empty());
}

#[test]
fn param_round_trip() {
    let mut r = Router::new();
    r.insert("/users/:id", "v").unwrap();
    let m = r.match_path("/users/42").unwrap();
    assert_eq!(*m.value, "v");
    assert_eq!(m.params, params(&[("id", "42")]));
}

#[test]
fn consume_round_trip() {
    let mut r = Router::new();
    r.insert("/files/*rest", 5).unwrap();
    let m = r.match_path("/files/a/b/c").unwrap();
    assert_eq!(*m.value, 5);
    assert_eq!(m.params, params(&[("rest", "a/b/c")]));
}

#[test]
fn consume_needs_one_segment() {
    let mut r = Router::new();
    r.insert("/files/*rest", 5).unwrap();
    assert_eq!(r.match_path("/files").err(), Some(MatchError::NotFound));
}

#[test]
fn wildcard_terminal_match() {
    let mut r = Router::new();
    r.insert("/static/*", 9).unwrap();
    let m = r.match_path("/static/anything/here").unwrap();
    assert_eq!(*m.value, 9);
    assert!(m.params.is_empty());
    let m = r.match_path("/static").unwrap();
    assert_eq!(*m.value, 9);
}

#[test]
fn ambiguity_rejection() {
    let mut r = Router::new();
    assert_eq!(r.insert("/users/:id", 1), Ok(()));
    assert_eq!(r.insert("/users/:name", 2), Err(InsertError::AmbiguousParams));
    let m = r.match_path("/users/3").unwrap();
    assert_eq!(*m.value, 1);
    assert_eq!(m.params, params(&[("id", "3")]));
}

#[test]
fn consume_key_ambiguity_rejection() {
    let mut r = Router::new();
    r.insert("/f/*a", 1).unwrap();
    assert_eq!(r.insert("/f/*b", 2), Err(InsertError::AmbiguousParams));
}

#[test]
fn empty_path_rejection() {
    let mut r = Router::new();
    assert_eq!(r.insert("", 1), Err(InsertError::EmptyPath));
}

#[test]
fn trailing_slash_rejection() {
    let mut r = Router::new();
    assert_eq!(r.insert("/users/", 1), Err(InsertError::TrailingSlash(6)));
    assert_eq!(r.insert("/", 1), Err(InsertError::TrailingSlash(0)));
}

#[test]
fn trailing_wildcard_rejection() {
    let mut r = Router::new();
    assert_eq!(r.insert("/files/*rest/extra", 1), Err(InsertError::TrailingWildcardPath));
    assert_eq!(r.insert("/files/*/extra", 1), Err(InsertError::TrailingWildcardPath));
}

#[test]
fn unregistered_path() {
    let r: Router<u32> = Router::new();
    assert_eq!(r.match_path("/nope").err(), Some(MatchError::NotFound));
    let mut r = Router::new();
    r.insert("/users/:id", 1).unwrap();
    assert_eq!(r.match_path("/nope").err(), Some(MatchError::NotFound));
    assert_eq!(r.match_path("/users/1/2").err(), Some(MatchError::NotFound));
}

#[test]
fn overwrite_idempotence() {
    let mut r = Router::new();
    r.insert("/users/:id", 1).unwrap();
    assert_eq!(r.insert("/users/:id", 2), Ok(()));
    let m = r.match_path("/users/8").unwrap();
    assert_eq!(*m.value, 2);
    assert_eq!(m.params, params(&[("id", "8")]));
}

#[test]
fn backtracks_from_literal_to_param() {
    let mut r = Router::new();
    r.insert("/a/b/c", 1).unwrap();
    r.insert("/a/:x/d", 2).unwrap();
    let m = r.match_path("/a/b/d").unwrap();
    assert_eq!(*m.value, 2);
    assert_eq!(m.params, params(&[("x", "b")]));
}

#[test]
fn nested_params_in_path_order() {
    let mut r = Router::new();
    r.insert("/u/:id/p/:post", 1).unwrap();
    let m = r.match_path("/u/3/p/9").unwrap();
    assert_eq!(m.params, params(&[("id", "3"), ("post", "9")]));
}

#[test]
fn lexer_error_conversions() {
    let e = LexerError::InvalidPath(Some(3), "x".to_string());
    assert_eq!(InsertError::from(e.clone()), InsertError::InvalidPath(Some(3), "x".to_string()));
    assert_eq!(MatchError::from(e), MatchError::InvalidPath(Some(3), "x".to_string()));
}
