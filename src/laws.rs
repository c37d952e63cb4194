use crate::lexer::{split_spec, tokens_of};
use crate::router::{
    empty_node, find_static, has_value, insert_error, lemma_step_in_range, match_at, node_ok, step,
    walk, Node, Router, Walk,
};
use crate::segment_type::{is_terminal_kind, parse_segment, SegmentView};
use vstd::prelude::*;

verus! {

proof fn lemma_walk_in_range(nodes: Seq<Node>, n: usize, p: Seq<SegmentView>, i: int)
    requires
        forall|m: int| 0 <= m < nodes.len() ==> node_ok(#[trigger] nodes[m], nodes.len()),
        n < nodes.len(),
    ensures
        walk(nodes, n, p, i) matches Walk::Reached(t) ==> t < nodes.len(),
    decreases p.len() - i,
{
    if i < p.len() {
        assert(node_ok(nodes[n as int], nodes.len()));
        lemma_step_in_range(nodes[n as int], nodes.len(), p[i]);
        if let Walk::Reached(c) = step(nodes[n as int], p[i]) {
            lemma_walk_in_range(nodes, c, p, i + 1);
        }
    }
}

/// The pieces of `raw` from `i` on are literal segments, read as themselves.
pub open spec fn all_literal(raw: Seq<Seq<char>>, i: int) -> bool {
    forall|j: int| i <= j < raw.len() ==> parse_segment(#[trigger] raw[j]) == SegmentView::Static(raw[j])
}

proof fn lemma_literal_walk_matches<V>(
    nodes: Seq<Node>,
    values: Seq<Option<V>>,
    n: usize,
    raw: Seq<Seq<char>>,
    i: int,
)
    requires
        0 <= i <= raw.len(),
        all_literal(raw, 0),
        walk(nodes, n, raw.map_values(|t: Seq<char>| parse_segment(t)), i) matches Walk::Reached(t)
            && has_value(values, t),
    ensures
        match_at(nodes, values, n, raw, i) == Some(
            (walk(nodes, n, raw.map_values(|t: Seq<char>| parse_segment(t)), i)->Reached_0, Seq::<(Seq<char>, Seq<char>)>::empty()),
        ),
    decreases raw.len() - i,
{
    let p = raw.map_values(|t: Seq<char>| parse_segment(t));
    if i < raw.len() {
        assert(p[i] == parse_segment(raw[i]));
        assert(p[i] == SegmentView::Static(raw[i]));
        if let Walk::Reached(c) = step(nodes[n as int], p[i]) {
            lemma_literal_walk_matches(nodes, values, c, raw, i + 1);
        }
    }
}

proof fn lemma_literal_walk_no_conflict(nodes: Seq<Node>, n: usize, raw: Seq<Seq<char>>, i: int)
    requires
        0 <= i,
        all_literal(raw, 0),
    ensures
        !(walk(nodes, n, raw.map_values(|t: Seq<char>| parse_segment(t)), i) is Conflict),
    decreases raw.len() - i,
{
    let p = raw.map_values(|t: Seq<char>| parse_segment(t));
    if i < raw.len() {
        assert(p[i] == parse_segment(raw[i]));
        assert(p[i] == SegmentView::Static(raw[i]));
        if let Walk::Reached(c) = step(nodes[n as int], p[i]) {
            lemma_literal_walk_no_conflict(nodes, c, raw, i + 1);
        }
    }
}

/// A pattern whose segments are all literal, the last one not empty, is
/// always accepted by `insert`; once it is in, matching the pattern's own
/// text as a request path finds the value it was inserted with, with no
/// captures.
pub proof fn lemma_literal_route_round_trip<V>(
    before: Router<V>,
    after: Router<V>,
    pattern: Seq<char>,
    value: V,
)
    requires
        before.wf(),
        split_spec(pattern).len() > 0,
        split_spec(pattern).last().len() > 0,
        all_literal(split_spec(pattern), 0),
        before.inserted(&after, tokens_of(pattern), value),
    ensures
        insert_error(before.nodes(), pattern) is None,
        after.resolve(pattern) matches Some(m) && m.1 == Seq::<(Seq<char>, Seq<char>)>::empty()
            && after.values()[m.0 as int] == Some(value),
{
    let raw = split_spec(pattern);
    let p = tokens_of(pattern);
    assert(p.last() == parse_segment(raw.last()));
    assert(p.last() == SegmentView::Static(raw.last()));
    assert forall|j: int| 0 <= j < p.len() - 1 implies !is_terminal_kind(#[trigger] p[j]) by {
        assert(p[j] == parse_segment(raw[j]));
        assert(p[j] == SegmentView::Static(raw[j]));
    }
    lemma_literal_walk_no_conflict(before.nodes(), 0, raw, 0);
    lemma_walk_in_range(after.nodes(), 0, p, 0);
    lemma_literal_walk_matches(after.nodes(), after.values(), 0, raw, 0);
}

proof fn lemma_match_same_presence<V>(
    nodes: Seq<Node>,
    a: Seq<Option<V>>,
    b: Seq<Option<V>>,
    n: usize,
    segs: Seq<Seq<char>>,
    i: int,
)
    requires
        forall|m: usize| #[trigger] has_value(a, m) == has_value(b, m),
    ensures
        match_at(nodes, a, n, segs, i) == match_at(nodes, b, n, segs, i),
    decreases segs.len() - i,
{
    if i < segs.len() {
        if let Some(c) = find_static(nodes[n as int].statics@, segs[i], 0) {
            lemma_match_same_presence(nodes, a, b, c, segs, i + 1);
        }
        if let Some(e) = nodes[n as int].param {
            lemma_match_same_presence(nodes, a, b, e.1, segs, i + 1);
        }
    }
}

/// Inserting a pattern that was inserted before is accepted again and only
/// replaces its value: the trie's nodes stay as they were, the pattern now
/// holds the second value, and every request path resolves to the same node
/// with the same captures as before.
pub proof fn lemma_reinsert_overwrites<V>(
    r0: Router<V>,
    r1: Router<V>,
    r2: Router<V>,
    pattern: Seq<char>,
    v1: V,
    v2: V,
)
    requires
        r0.wf(),
        insert_error(r0.nodes(), pattern) is None,
        r0.inserted(&r1, tokens_of(pattern), v1),
        r1.inserted(&r2, tokens_of(pattern), v2),
    ensures
        insert_error(r1.nodes(), pattern) is None,
        r2.nodes() == r1.nodes(),
        r1.lookup(tokens_of(pattern)) == Some(v1),
        r2.lookup(tokens_of(pattern)) == Some(v2),
        forall|path: Seq<char>| #[trigger] r2.resolve(path) == r1.resolve(path),
{
    let p = tokens_of(pattern);
    let t = walk(r1.nodes(), 0, p, 0)->Reached_0;
    lemma_walk_in_range(r1.nodes(), 0, p, 0);
    assert forall|m: usize| #[trigger] has_value(r2.values(), m) == has_value(r1.values(), m) by {
        if m < r2.values().len() && m != t {
            assert(r2.values()[m as int] == r1.values()[m as int]);
        }
    }
    assert forall|path: Seq<char>| #[trigger] r2.resolve(path) == r1.resolve(path) by {
        lemma_match_same_presence(r1.nodes(), r2.values(), r1.values(), 0, split_spec(path), 0);
    }
}

/// A fresh table matches no request path.
pub proof fn lemma_empty_router_resolves_nothing<V>(r: Router<V>, path: Seq<char>)
    requires
        r.nodes().len() == 1,
        empty_node(r.nodes()[0]),
        r.values() == seq![Option::<V>::None],
    ensures
        r.resolve(path) is None,
{
    let segs = split_spec(path);
    if segs.len() > 0 {
        assert(find_static(r.nodes()[0].statics@, segs[0], 0) is None);
    }
}

} // verus!
