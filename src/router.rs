use crate::error::{InsertError, MatchError};
use crate::lexer::{segment_views, split_path, split_spec, texts, tokenize, tokens_of};
use crate::segment_type::{is_terminal_kind, parse_segment, SegmentType, SegmentView};
use vstd::prelude::*;
use vstd::string::*;

verus! {

/// One trie node: its literal children, and at most one child of each
/// capturing kind. Children are indices into the router's node table.
pub struct Node {
    pub statics: Vec<(String, usize)>,
    pub param: Option<(String, usize)>,
    pub consume: Option<(String, usize)>,
    pub wildcard: Option<usize>,
}

/// The routing trie. Node 0 is the root; `values[n]` is the value stored
/// at node `n`, if a pattern ends there.
pub struct Router<V> {
    nodes: Vec<Node>,
    values: Vec<Option<V>>,
}

/// A successful match: the stored value and the captures, in path order.
pub struct MatchResult<'a, V> {
    pub value: &'a V,
    pub params: Vec<(String, String)>,
}

/// Where following a pattern through the trie leads.
pub enum Walk {
    /// every segment has its edge; the pattern ends at this node
    Reached(usize),
    /// some segment has no edge yet
    Missing,
    /// a capture at some position is already bound under another key
    Conflict,
}

/// The first literal child keyed by `t`, searching from entry `i`.
pub open spec fn find_static(s: Seq<(String, usize)>, t: Seq<char>, i: int) -> Option<usize>
    decreases s.len() - i,
{
    if i < 0 || i >= s.len() {
        None
    } else if s[i].0@ == t {
        Some(s[i].1)
    } else {
        find_static(s, t, i + 1)
    }
}

/// The edge that pattern segment `s` takes out of `node`.
pub open spec fn step(node: Node, s: SegmentView) -> Walk {
    match s {
        SegmentView::Static(t) => match find_static(node.statics@, t, 0) {
            Some(c) => Walk::Reached(c),
            None => Walk::Missing,
        },
        SegmentView::Param(k) => match node.param {
            Some(e) => if e.0@ == k {
                Walk::Reached(e.1)
            } else {
                Walk::Conflict
            },
            None => Walk::Missing,
        },
        SegmentView::Consume(k) => match node.consume {
            Some(e) => if e.0@ == k {
                Walk::Reached(e.1)
            } else {
                Walk::Conflict
            },
            None => Walk::Missing,
        },
        SegmentView::Wildcard => match node.wildcard {
            Some(c) => Walk::Reached(c),
            None => Walk::Missing,
        },
    }
}

/// Follows the pattern segments `p[i..]` from node `n`.
pub open spec fn walk(nodes: Seq<Node>, n: usize, p: Seq<SegmentView>, i: int) -> Walk
    decreases p.len() - i,
{
    if i >= p.len() {
        Walk::Reached(n)
    } else {
        match step(nodes[n as int], p[i]) {
            Walk::Reached(c) => walk(nodes, c, p, i + 1),
            other => other,
        }
    }
}

pub open spec fn has_value<V>(values: Seq<Option<V>>, n: usize) -> bool {
    n < values.len() && values[n as int] is Some
}

/// Request segments joined back together with slashes.
pub open spec fn join(segs: Seq<Seq<char>>) -> Seq<char>
    decreases segs.len(),
{
    if segs.len() == 0 {
        Seq::empty()
    } else if segs.len() == 1 {
        segs[0]
    } else {
        join(segs.drop_last()) + seq!['/'] + segs.last()
    }
}

pub type Captures = Seq<(Seq<char>, Seq<char>)>;

/// Success at the end of the request: the node's own value, else a wildcard
/// child with a value, which matches zero segments.
pub open spec fn match_end<V>(nodes: Seq<Node>, values: Seq<Option<V>>, n: usize) -> Option<
    (usize, Captures),
> {
    if has_value(values, n) {
        Some((n, Seq::empty()))
    } else {
        match nodes[n as int].wildcard {
            Some(w) => if has_value(values, w) {
                Some((w, Seq::empty()))
            } else {
                None
            },
            None => None,
        }
    }
}

/// The consume branch, then the wildcard branch, for the request
/// segments `segs[i..]`, at least one of them.
pub open spec fn match_tail<V>(
    nodes: Seq<Node>,
    values: Seq<Option<V>>,
    n: usize,
    segs: Seq<Seq<char>>,
    i: int,
) -> Option<(usize, Captures)> {
    let by_consume = match nodes[n as int].consume {
        Some(e) => if has_value(values, e.1) {
            Some((e.1, seq![(e.0@, join(segs.subrange(i, segs.len() as int)))]))
        } else {
            None
        },
        None => None,
    };
    if by_consume is Some {
        by_consume
    } else {
        match nodes[n as int].wildcard {
            Some(w) => if has_value(values, w) {
                Some((w, Seq::empty()))
            } else {
                None
            },
            None => None,
        }
    }
}

/// The first success of the depth-first search from node `n` over the
/// request segments `segs[i..]`, trying literal, then param, then consume,
/// then wildcard children: the node reached and the captures made.
pub open spec fn match_at<V>(
    nodes: Seq<Node>,
    values: Seq<Option<V>>,
    n: usize,
    segs: Seq<Seq<char>>,
    i: int,
) -> Option<(usize, Captures)>
    decreases segs.len() - i,
{
    if i >= segs.len() {
        match_end(nodes, values, n)
    } else {
        let by_static = match find_static(nodes[n as int].statics@, segs[i], 0) {
            Some(c) => match_at(nodes, values, c, segs, i + 1),
            None => None,
        };
        let by_param = match nodes[n as int].param {
            Some(e) => match match_at(nodes, values, e.1, segs, i + 1) {
                Some(m) => Some((m.0, seq![(e.0@, segs[i])] + m.1)),
                None => None,
            },
            None => None,
        };
        if by_static is Some {
            by_static
        } else if by_param is Some {
            by_param
        } else {
            match_tail(nodes, values, n, segs, i)
        }
    }
}

/// What an `insert` of `pattern` into a trie with these nodes fails with,
/// if it fails.
pub open spec fn insert_error(nodes: Seq<Node>, pattern: Seq<char>) -> Option<InsertError> {
    let p = tokens_of(pattern);
    if p.len() == 0 {
        Some(InsertError::EmptyPath)
    } else if p.last() == SegmentView::Static(Seq::empty()) {
        Some(InsertError::TrailingSlash((pattern.len() - 1) as usize))
    } else if exists|j: int| 0 <= j < p.len() - 1 && is_terminal_kind(#[trigger] p[j]) {
        Some(InsertError::TrailingWildcardPath)
    } else if walk(nodes, 0, p, 0) is Conflict {
        Some(InsertError::AmbiguousParams)
    } else {
        None
    }
}

/// Every edge taken out of `a` is still taken, to the same node, out of `b`.
pub open spec fn grows(a: Node, b: Node) -> bool {
    forall|s: SegmentView| (#[trigger] step(a, s)) is Reached ==> step(b, s) == step(a, s)
}

/// Every edge out of `b` is an edge out of `a` or leads to a node numbered
/// `base` or above.
pub open spec fn edges_back(a: Node, b: Node, base: nat) -> bool {
    forall|s: SegmentView|
        (#[trigger] step(b, s)) is Reached ==> step(b, s)->Reached_0 >= base || step(a, s) == step(b, s)
}

/// Every edge out of `b` leads to a node numbered `base` or above.
pub open spec fn edges_above(b: Node, base: nat) -> bool {
    forall|s: SegmentView| (#[trigger] step(b, s)) is Reached ==> step(b, s)->Reached_0 >= base
}

pub open spec fn caps_view(v: Seq<(String, String)>) -> Captures {
    v.map_values(|x: (String, String)| (x.0@, x.1@))
}

pub open spec fn strings_view(v: Seq<String>) -> Seq<Seq<char>> {
    v.map_values(|x: String| x@)
}

pub open spec fn node_ok(node: Node, len: nat) -> bool {
    &&& forall|k: int| 0 <= k < node.statics@.len() ==> (#[trigger] node.statics@[k]).1 < len
    &&& (node.param matches Some(e) ==> e.1 < len)
    &&& (node.consume matches Some(e) ==> e.1 < len)
    &&& (node.wildcard matches Some(c) ==> c < len)
}

pub open spec fn empty_node(node: Node) -> bool {
    node.statics@.len() == 0 && node.param is None && node.consume is None && node.wildcard is None
}

impl<V> Router<V> {
    pub closed spec fn nodes(&self) -> Seq<Node> {
        self.nodes@
    }

    pub closed spec fn values(&self) -> Seq<Option<V>> {
        self.values@
    }

    /// The table is non-empty, one value slot per node, every edge in range.
    pub open spec fn wf(&self) -> bool {
        &&& self.nodes().len() >= 1
        &&& self.values().len() == self.nodes().len()
        &&& forall|m: int| 0 <= m < self.nodes().len() ==> node_ok(#[trigger] self.nodes()[m], self.nodes().len())
    }

    /// The value stored for pattern `p`, if `p` was registered.
    pub open spec fn lookup(&self, p: Seq<SegmentView>) -> Option<V> {
        match walk(self.nodes(), 0, p, 0) {
            Walk::Reached(n) => if n < self.values().len() { self.values()[n as int] } else { None },
            _ => None,
        }
    }

    /// The result of matching a request path against this table.
    pub open spec fn resolve(&self, path: Seq<char>) -> Option<(usize, Captures)> {
        match_at(self.nodes(), self.values(), 0, split_spec(path), 0)
    }

    /// What a successful insert of pattern `p` with `value` leaves: `p`
    /// resolves to a node holding `value`; every pattern that was reached
    /// before still reaches the same node, and a pattern that reaches a node
    /// that was there before reached it before; only that node's value changed;
    /// nodes added on the way hold no value; and when `p` was reached before,
    /// no node was added.
    pub open spec fn inserted(&self, after: &Self, p: Seq<SegmentView>, value: V) -> bool {
        &&& after.wf()
        &&& walk(after.nodes(), 0, p, 0) matches Walk::Reached(t) && {
            &&& after.values()[t as int] == Some(value)
            &&& forall|m: int|
                0 <= m < after.values().len() && m != t ==> #[trigger] after.values()[m] == if m
                    < self.values().len() {
                    self.values()[m]
                } else {
                    None
                }
        }
        &&& after.nodes().len() >= self.nodes().len()
        &&& forall|q: Seq<SegmentView>|
            (#[trigger] walk(self.nodes(), 0, q, 0)) is Reached ==> walk(after.nodes(), 0, q, 0)
                == walk(self.nodes(), 0, q, 0)
        &&& forall|q: Seq<SegmentView>|
            (#[trigger] walk(after.nodes(), 0, q, 0)) is Reached && walk(after.nodes(), 0, q, 0)->Reached_0
                < self.nodes().len() ==> walk(self.nodes(), 0, q, 0) == walk(after.nodes(), 0, q, 0)
        &&& walk(self.nodes(), 0, p, 0) is Reached ==> after.nodes() == self.nodes()
    }
}


proof fn lemma_find_static_push(s: Seq<(String, usize)>, x: (String, usize), t: Seq<char>, i: int)
    requires
        0 <= i <= s.len(),
    ensures
        find_static(s.push(x), t, i) == if find_static(s, t, i) is Some {
            find_static(s, t, i)
        } else if x.0@ == t {
            Some(x.1)
        } else {
            None
        },
    decreases s.len() - i,
{
    if i < s.len() {
        assert(s.push(x)[i] == s[i]);
        lemma_find_static_push(s, x, t, i + 1);
    } else {
        assert(s.push(x)[i] == x);
        assert(find_static(s.push(x), t, i + 1) is None);
    }
}

proof fn lemma_find_static_in(s: Seq<(String, usize)>, t: Seq<char>, i: int)
    ensures
        find_static(s, t, i) matches Some(c) ==> exists|k: int| 0 <= k < s.len() && (#[trigger] s[k]).1 == c,
    decreases s.len() - i,
{
    if 0 <= i < s.len() && s[i].0@ != t {
        lemma_find_static_in(s, t, i + 1);
    }
}

pub(crate) proof fn lemma_step_in_range(node: Node, len: nat, s: SegmentView)
    requires
        node_ok(node, len),
    ensures
        step(node, s) matches Walk::Reached(c) ==> c < len,
{
    if let SegmentView::Static(t) = s {
        lemma_find_static_in(node.statics@, t, 0);
    }
}

/// Walks that reach a node keep reaching it when every node only grows.
proof fn lemma_walk_grows(a: Seq<Node>, b: Seq<Node>, n: usize, q: Seq<SegmentView>, j: int)
    requires
        forall|m: int| 0 <= m < a.len() ==> node_ok(#[trigger] a[m], a.len()),
        b.len() >= a.len(),
        forall|m: int| 0 <= m < a.len() ==> grows(#[trigger] a[m], b[m]),
        n < a.len(),
        walk(a, n, q, j) is Reached,
    ensures
        walk(b, n, q, j) == walk(a, n, q, j),
    decreases q.len() - j,
{
    if j < q.len() {
        assert(node_ok(a[n as int], a.len()));
        assert(grows(a[n as int], b[n as int]));
        lemma_step_in_range(a[n as int], a.len(), q[j]);
        if let Walk::Reached(c) = step(a[n as int], q[j]) {
            lemma_walk_grows(a, b, c, q, j + 1);
        }
    }
}

/// Following a prefix of `p` to `m` and then the rest of `p` from `m` is
/// following all of `p`.
proof fn lemma_walk_prefix(nodes: Seq<Node>, n: usize, p: Seq<SegmentView>, j: int, k: int)
    requires
        0 <= j <= k <= p.len(),
        walk(nodes, n, p.subrange(0, k), j) is Reached,
    ensures
        walk(nodes, n, p, j) == walk(nodes, walk(nodes, n, p.subrange(0, k), j)->Reached_0, p, k),
    decreases k - j,
{
    if j < k {
        assert(p.subrange(0, k)[j] == p[j]);
        if let Walk::Reached(c) = step(nodes[n as int], p[j]) {
            lemma_walk_prefix(nodes, c, p, j + 1, k);
        }
    }
}

proof fn lemma_walk_stays_above(nodes: Seq<Node>, base: nat, n: usize, q: Seq<SegmentView>, j: int)
    requires
        forall|m: int| base <= m < nodes.len() ==> edges_above(#[trigger] nodes[m], base),
        base <= n < nodes.len(),
        forall|m: int| 0 <= m < nodes.len() ==> node_ok(#[trigger] nodes[m], nodes.len()),
    ensures
        walk(nodes, n, q, j) matches Walk::Reached(t) ==> t >= base,
    decreases q.len() - j,
{
    if j < q.len() {
        assert(edges_above(nodes[n as int], base));
        assert(node_ok(nodes[n as int], nodes.len()));
        lemma_step_in_range(nodes[n as int], nodes.len(), q[j]);
        if let Walk::Reached(c) = step(nodes[n as int], q[j]) {
            lemma_walk_stays_above(nodes, base, c, q, j + 1);
        }
    }
}

/// A walk of the grown trie that ends at an old node is a walk of the old trie.
proof fn lemma_walk_back(a: Seq<Node>, b: Seq<Node>, n: usize, q: Seq<SegmentView>, j: int)
    requires
        b.len() >= a.len(),
        forall|m: int| 0 <= m < a.len() ==> edges_back(#[trigger] a[m], b[m], a.len()),
        forall|m: int| a.len() <= m < b.len() ==> edges_above(#[trigger] b[m], a.len()),
        forall|m: int| 0 <= m < b.len() ==> node_ok(#[trigger] b[m], b.len()),
        n < a.len(),
        walk(b, n, q, j) matches Walk::Reached(t) && t < a.len(),
    ensures
        walk(a, n, q, j) == walk(b, n, q, j),
    decreases q.len() - j,
{
    if j < q.len() {
        assert(edges_back(a[n as int], b[n as int], a.len()));
        assert(node_ok(b[n as int], b.len()));
        lemma_step_in_range(b[n as int], b.len(), q[j]);
        if let Walk::Reached(c) = step(b[n as int], q[j]) {
            if c >= a.len() {
                lemma_walk_stays_above(b, a.len(), c, q, j + 1);
            } else {
                lemma_walk_back(a, b, c, q, j + 1);
            }
        }
    }
}

proof fn lemma_walk_from_empty(nodes: Seq<Node>, n: usize, p: Seq<SegmentView>, i: int)
    requires
        0 <= n < nodes.len(),
        empty_node(nodes[n as int]),
    ensures
        !(walk(nodes, n, p, i) is Conflict),
{
    if i < p.len() {
        if let SegmentView::Static(t) = p[i] {
            assert(find_static(nodes[n as int].statics@, t, 0) is None);
        }
    }
}

fn find_static_exec(s: &Vec<(String, usize)>, t: &String) -> (r: Option<usize>)
    ensures
        r == find_static(s@, t@, 0),
{
    let mut k: usize = 0;
    while k < s.len()
        invariant
            k <= s@.len(),
            find_static(s@, t@, 0) == find_static(s@, t@, k as int),
        decreases s@.len() - k,
    {
        if s[k].0 == *t {
            return Some(s[k].1);
        }
        k = k + 1;
    }
    None
}

/// The request segments `segs[i..]` joined with slashes.
fn join_from(segs: &Vec<String>, i: usize) -> (r: String)
    requires
        i < segs@.len(),
    ensures
        r@ == join(strings_view(segs@).subrange(i as int, segs@.len() as int)),
{
    let ghost sv = strings_view(segs@);
    let len = segs.len();
    let mut acc = segs[i].clone();
    let mut j: usize = i + 1;
    assert(sv.subrange(i as int, j as int) =~= seq![sv[i as int]]);
    while j < segs.len()
        invariant
            i < j <= segs@.len(),
            sv == strings_view(segs@),
            acc@ == join(sv.subrange(i as int, j as int)),
        decreases segs@.len() - j,
    {
        acc.append("/");
        acc.append(segs[j].as_str());
        proof {
            reveal_strlit("/");
            let next = sv.subrange(i as int, j as int + 1);
            assert(next.drop_last() =~= sv.subrange(i as int, j as int));
            assert(next.last() == segs@[j as int]@);
        }
        j = j + 1;
    }
    assert(sv.subrange(i as int, j as int) =~= sv.subrange(i as int, segs@.len() as int));
    acc
}

impl Node {
    fn new() -> (r: Node)
        ensures
            empty_node(r),
    {
        Node { statics: Vec::new(), param: None, consume: None, wildcard: None }
    }
}

impl<V> Router<V> {
    /// An empty table: the root alone, with no value.
    pub fn new() -> (r: Router<V>)
        ensures
            r.wf(),
            r.nodes().len() == 1,
            empty_node(r.nodes()[0]),
            r.values() == seq![Option::<V>::None],
    {
        let mut nodes: Vec<Node> = Vec::new();
        nodes.push(Node::new());
        let mut values: Vec<Option<V>> = Vec::new();
        values.push(None);
        let r = Router { nodes, values };
        assert(r.values() =~= seq![Option::<V>::None]);
        r
    }

    /// The edge that `seg` takes out of node `cur`.
    fn step_exec(&self, cur: usize, seg: &SegmentType) -> (r: Walk)
        requires
            cur < self.nodes().len(),
        ensures
            r == step(self.nodes()[cur as int], seg@),
    {
        let node = &self.nodes[cur];
        match seg {
            SegmentType::Static { path } => {
                let key = String::from_str(path);
                match find_static_exec(&node.statics, &key) {
                    Some(c) => Walk::Reached(c),
                    None => Walk::Missing,
                }
            },
            SegmentType::Param { key } => match &node.param {
                Some(e) => {
                    if e.0 == String::from_str(key) {
                        Walk::Reached(e.1)
                    } else {
                        Walk::Conflict
                    }
                },
                None => Walk::Missing,
            },
            SegmentType::Consume { key } => match &node.consume {
                Some(e) => {
                    if e.0 == String::from_str(key) {
                        Walk::Reached(e.1)
                    } else {
                        Walk::Conflict
                    }
                },
                None => Walk::Missing,
            },
            SegmentType::Wildcard => match node.wildcard {
                Some(c) => Walk::Reached(c),
                None => Walk::Missing,
            },
        }
    }

    /// Adds the edge for `seg` out of node `cur`, to node `c`, where there
    /// was none.
    fn attach(&mut self, cur: usize, seg: &SegmentType, c: usize)
        requires
            cur < old(self).nodes().len(),
            c < old(self).nodes().len(),
            step(old(self).nodes()[cur as int], seg@) is Missing,
        ensures
            final(self).values() == old(self).values(),
            final(self).nodes().len() == old(self).nodes().len(),
            forall|m: int| 0 <= m < final(self).nodes().len() && m != cur ==> #[trigger] final(self).nodes()[m] == old(self).nodes()[m],
            grows(old(self).nodes()[cur as int], final(self).nodes()[cur as int]),
            step(final(self).nodes()[cur as int], seg@) == Walk::Reached(c),
            forall|s: SegmentView|
                (#[trigger] step(final(self).nodes()[cur as int], s)) is Reached ==> step(
                    final(self).nodes()[cur as int],
                    s,
                )->Reached_0 == c || step(old(self).nodes()[cur as int], s) == step(final(self).nodes()[cur as int], s),
            node_ok(old(self).nodes()[cur as int], old(self).nodes().len() as nat) ==> node_ok(final(self).nodes()[cur as int], old(self).nodes().len() as nat),
    {
        let ghost before = self.nodes[cur as int];
        match seg {
            SegmentType::Static { path } => {
                let key = String::from_str(path);
                let ghost x = (key, c);
                self.nodes[cur].statics.push((key, c));
                let ghost after = self.nodes[cur as int];
                assert(after.statics@ == before.statics@.push(x));
                assert forall|s: SegmentView| (#[trigger] step(before, s)) is Reached implies step(after, s) == step(before, s) by {
                    if let SegmentView::Static(t) = s {
                        lemma_find_static_push(before.statics@, x, t, 0);
                    }
                }
                assert forall|s: SegmentView|
                    (#[trigger] step(after, s)) is Reached implies step(after, s)->Reached_0 == c || step(before, s) == step(after, s) by {
                    if let SegmentView::Static(t) = s {
                        lemma_find_static_push(before.statics@, x, t, 0);
                    }
                }
                proof {
                    lemma_find_static_push(before.statics@, x, path@, 0);
                }
                assert forall|k: int| 0 <= k < after.statics@.len() && node_ok(before, old(self).nodes().len() as nat) implies (#[trigger] after.statics@[k]).1 < old(self).nodes().len() by {
                    if k < before.statics@.len() {
                        assert(after.statics@[k] == before.statics@[k]);
                    }
                }
            },
            SegmentType::Param { key } => {
                self.nodes[cur].param = Some((String::from_str(key), c));
            },
            SegmentType::Consume { key } => {
                self.nodes[cur].consume = Some((String::from_str(key), c));
            },
            SegmentType::Wildcard => {
                self.nodes[cur].wildcard = Some(c);
            },
        }
    }

    /// Follows the pattern `segs` from the root without changing anything.
    fn descend(&self, segs: &Vec<SegmentType>) -> (r: Walk)
        requires
            self.wf(),
        ensures
            r is Conflict <==> walk(self.nodes(), 0, segment_views(segs@), 0) is Conflict,
    {
        let ghost p = segment_views(segs@);
        let mut cur: usize = 0;
        let mut i: usize = 0;
        while i < segs.len()
            invariant
                self.wf(),
                cur < self.nodes().len(),
                i <= segs@.len(),
                p == segment_views(segs@),
                walk(self.nodes(), 0, p, 0) == walk(self.nodes(), cur, p, i as int),
            decreases segs@.len() - i,
        {
            assert(p[i as int] == segs@[i as int]@);
            match self.step_exec(cur, &segs[i]) {
                Walk::Reached(c) => {
                    proof {
                        assert(node_ok(self.nodes()[cur as int], self.nodes().len()));
                        lemma_step_in_range(self.nodes()[cur as int], self.nodes().len(), p[i as int]);
                    }
                    cur = c;
                },
                Walk::Missing => {
                    return Walk::Missing;
                },
                Walk::Conflict => {
                    return Walk::Conflict;
                },
            }
            i = i + 1;
        }
        Walk::Reached(cur)
    }

    /// Registers `pattern` with `value`. Fails, changing nothing, on an empty
    /// pattern, one that ends in `/` (at the offset of that slash), one with
    /// a consume or wildcard segment before its last segment, and one that
    /// binds a capture under another key than a registered pattern at the
    /// same position. A pattern registered before gets the new value.
    pub fn insert(&mut self, pattern: &str, value: V) -> (r: Result<(), InsertError>)
        requires
            old(self).wf(),
        ensures
            final(self).wf(),
            match insert_error(old(self).nodes(), pattern@) {
                Some(e) => r == Err::<(), InsertError>(e) && final(self).nodes() == old(self).nodes()
                    && final(self).values() == old(self).values(),
                None => r is Ok && old(self).inserted(final(self), tokens_of(pattern@), value),
            },
    {
        let segs = match tokenize(pattern) {
            Ok(v) => v,
            Err(e) => {
                return Err(InsertError::from(e));
            },
        };
        let ghost p = tokens_of(pattern@);
        assert(p == segment_views(segs@));
        let n = segs.len();
        if n == 0 {
            proof {
                if pattern@.len() > 0 {
                    crate::lexer::lemma_split_raw_nonempty(pattern@);
                }
            }
            return Err(InsertError::EmptyPath);
        }
        assert(pattern@.len() > 0);
        assert(p.last() == segs@[n - 1]@);
        if let SegmentType::Static { path } = &segs[n - 1] {
            if path.unicode_len() == 0 {
                assert(path@ =~= Seq::<char>::empty());
                let len = pattern.unicode_len();
                return Err(InsertError::TrailingSlash(len - 1));
            }
        }
        assert(p.last() != SegmentView::Static(Seq::empty()));
        let mut j: usize = 0;
        while j < n - 1
            invariant
                j <= n - 1,
                n == p.len(),
                p == segment_views(segs@),
                forall|k: int| 0 <= k < j ==> !is_terminal_kind(#[trigger] p[k]),
                self.wf(),
                self.nodes() == old(self).nodes(),
                self.values() == old(self).values(),
                p == tokens_of(pattern@),
                n > 0,
                p.last() != SegmentView::Static(Seq::empty()),
            decreases n - 1 - j,
        {
            assert(p[j as int] == segs@[j as int]@);
            match &segs[j] {
                SegmentType::Consume { .. } => {
                    assert(is_terminal_kind(p[j as int]));
                    return Err(InsertError::TrailingWildcardPath);
                },
                SegmentType::Wildcard => {
                    assert(is_terminal_kind(p[j as int]));
                    return Err(InsertError::TrailingWildcardPath);
                },
                _ => {},
            }
            j = j + 1;
        }
        if let Walk::Conflict = self.descend(&segs) {
            return Err(InsertError::AmbiguousParams);
        }
        let ghost o = self.nodes();
        let ghost ov = self.values();
        let ghost mut created = false;
        let mut cur: usize = 0;
        let mut i: usize = 0;
        assert(p.subrange(0, 0) =~= Seq::<SegmentView>::empty());
        while i < n
            invariant
                self.wf(),
                forall|m: int| 0 <= m < o.len() ==> node_ok(#[trigger] o[m], o.len()),
                ov.len() == o.len(),
                cur < self.nodes().len(),
                i <= n,
                n == p.len(),
                p == segment_views(segs@),
                self.nodes().len() >= o.len(),
                forall|m: int| 0 <= m < o.len() ==> grows(#[trigger] o[m], self.nodes()[m]),
                forall|m: int| 0 <= m < o.len() ==> edges_back(#[trigger] o[m], self.nodes()[m], o.len()),
                forall|m: int| o.len() <= m < self.nodes().len() ==> edges_above(#[trigger] self.nodes()[m], o.len()),
                walk(self.nodes(), 0, p.subrange(0, i as int), 0) == Walk::Reached(cur),
                !(walk(self.nodes(), cur, p, i as int) is Conflict),
                forall|m: int|
                    0 <= m < self.values().len() ==> #[trigger] self.values()[m] == if m < ov.len() {
                        ov[m]
                    } else {
                        None
                    },
                !created ==> self.nodes() == o && walk(o, 0, p, 0) == walk(o, cur, p, i as int),
                created ==> !(walk(o, 0, p, 0) is Reached),
            decreases n - i,
        {
            let seg = &segs[i];
            assert(p[i as int] == seg@);
            let ghost n0 = self.nodes();
            let ghost pt = p.subrange(0, i as int + 1);
            assert(pt.subrange(0, i as int) =~= p.subrange(0, i as int));
            assert(pt[i as int] == p[i as int]);
            match self.step_exec(cur, seg) {
                Walk::Reached(c) => {
                    proof {
                        assert(node_ok(n0[cur as int], n0.len()));
                        lemma_step_in_range(n0[cur as int], n0.len(), p[i as int]);
                        lemma_walk_prefix(n0, 0, pt, 0, i as int);
                        assert(walk(n0, c, pt, i + 1) == Walk::Reached(c));
                    }
                    cur = c;
                },
                Walk::Missing => {
                    let c = self.nodes.len();
                    self.nodes.push(Node::new());
                    self.values.push(None);
                    assert(self.nodes()[cur as int] == n0[cur as int]);
                    self.attach(cur, seg, c);
                    proof {
                        let n2 = self.nodes();
                        assert forall|m: int| 0 <= m < n2.len() implies node_ok(#[trigger] n2[m], n2.len()) by {
                            if m < n0.len() {
                                assert(node_ok(n0[m], n0.len()));
                            }
                        }
                        assert forall|m: int| 0 <= m < n0.len() implies grows(#[trigger] n0[m], n2[m]) by {
                            if m != cur {
                                assert(n2[m] == n0[m]);
                            }
                        }
                        assert forall|m: int| 0 <= m < o.len() implies grows(#[trigger] o[m], n2[m]) by {
                            assert(grows(o[m], n0[m]));
                            assert(grows(n0[m], n2[m]));
                            assert forall|s: SegmentView| (#[trigger] step(o[m], s)) is Reached implies step(n2[m], s) == step(o[m], s) by {
                                assert(step(n0[m], s) == step(o[m], s));
                            }
                        }
                        assert forall|m: int| 0 <= m < o.len() implies edges_back(#[trigger] o[m], n2[m], o.len()) by {
                            assert(edges_back(o[m], n0[m], o.len()));
                            if m == cur {
                                assert forall|s: SegmentView|
                                    (#[trigger] step(n2[m], s)) is Reached implies step(n2[m], s)->Reached_0 >= o.len() || step(o[m], s) == step(n2[m], s) by {
                                    assert(step(n0[m], s) is Reached ==> step(n0[m], s)->Reached_0 >= o.len() || step(o[m], s) == step(n0[m], s));
                                }
                            } else {
                                assert(n2[m] == n0[m]);
                            }
                        }
                        assert forall|m: int| o.len() <= m < n2.len() implies edges_above(#[trigger] n2[m], o.len()) by {
                            if m == c {
                                assert forall|s: SegmentView| (#[trigger] step(n2[m], s)) is Reached implies step(n2[m], s)->Reached_0 >= o.len() by {
                                    if let SegmentView::Static(t) = s {
                                        assert(find_static(n2[m].statics@, t, 0) is None);
                                    }
                                }
                            } else if m == cur {
                                assert(edges_above(n0[m], o.len()));
                                assert forall|s: SegmentView| (#[trigger] step(n2[m], s)) is Reached implies step(n2[m], s)->Reached_0 >= o.len() by {
                                    assert(step(n0[m], s) is Reached ==> step(n0[m], s)->Reached_0 >= o.len());
                                }
                            } else {
                                assert(n2[m] == n0[m]);
                                assert(edges_above(n0[m], o.len()));
                            }
                        }
                        assert(node_ok(n0[0], n0.len()));
                        lemma_walk_grows(n0, n2, 0, p.subrange(0, i as int), 0);
                        lemma_walk_prefix(n2, 0, pt, 0, i as int);
                        assert(walk(n2, c, pt, i + 1) == Walk::Reached(c));
                        lemma_walk_from_empty(n2, c, p, i + 1);
                        created = true;
                    }
                    cur = c;
                },
                Walk::Conflict => {
                    assert(walk(self.nodes(), cur, p, i as int) is Conflict);
                    return Err(InsertError::AmbiguousParams);
                },
            }
            i = i + 1;
        }
        assert(p.subrange(0, n as int) =~= p);
        self.values[cur] = Some(value);
        proof {
            assert forall|q: Seq<SegmentView>| (#[trigger] walk(o, 0, q, 0)) is Reached implies walk(self.nodes(), 0, q, 0) == walk(o, 0, q, 0) by {
                lemma_walk_grows(o, self.nodes(), 0, q, 0);
            }
            assert forall|q: Seq<SegmentView>|
                (#[trigger] walk(self.nodes(), 0, q, 0)) is Reached && walk(self.nodes(), 0, q, 0)->Reached_0 < o.len() implies walk(o, 0, q, 0) == walk(self.nodes(), 0, q, 0) by {
                lemma_walk_back(o, self.nodes(), 0, q, 0);
            }
        }
        Ok(())
    }

    /// The depth-first search of `match_at`, with the captures built.
    fn match_from(&self, n: usize, segs: &Vec<String>, i: usize) -> (r: Option<(usize, Vec<(String, String)>)>)
        requires
            self.wf(),
            n < self.nodes().len(),
            i <= segs@.len(),
        ensures
            match match_at(self.nodes(), self.values(), n, strings_view(segs@), i as int) {
                Some(m) => r matches Some(x) && x.0 == m.0 && caps_view(x.1@) == m.1,
                None => r is None,
            },
            r matches Some(x) ==> has_value(self.values(), x.0),
        decreases segs@.len() - i,
    {
        let ghost sv = strings_view(segs@);
        let empty: Vec<(String, String)> = Vec::new();
        assert(caps_view(empty@) =~= Seq::empty());
        if i == segs.len() {
            if self.values[n].is_some() {
                return Some((n, empty));
            }
            if let Some(w) = self.nodes[n].wildcard {
                assert(node_ok(self.nodes()[n as int], self.nodes().len()));
                if self.values[w].is_some() {
                    return Some((w, empty));
                }
            }
            return None;
        }
        let node = &self.nodes[n];
        assert(node_ok(self.nodes()[n as int], self.nodes().len()));
        assert(sv[i as int] == segs@[i as int]@);
        if let Some(c) = find_static_exec(&node.statics, &segs[i]) {
            proof {
                lemma_find_static_in(node.statics@, segs@[i as int]@, 0);
            }
            let r = self.match_from(c, segs, i + 1);
            if r.is_some() {
                return r;
            }
        }
        if let Some(e) = &node.param {
            let r = self.match_from(e.1, segs, i + 1);
            match r {
                Some(x) => {
                    let t = x.0;
                    let mut caps = x.1;
                    let ghost rest = caps@;
                    caps.insert(0, (e.0.clone(), segs[i].clone()));
                    assert(caps_view(caps@) =~= seq![(e.0@, sv[i as int])] + caps_view(rest));
                    return Some((t, caps));
                },
                None => {},
            }
        }
        if let Some(e) = &node.consume {
            if self.values[e.1].is_some() {
                let mut caps: Vec<(String, String)> = Vec::new();
                caps.push((e.0.clone(), join_from(segs, i)));
                assert(caps_view(caps@) =~= seq![(e.0@, join(sv.subrange(i as int, sv.len() as int)))]);
                return Some((e.1, caps));
            }
        }
        if let Some(w) = node.wildcard {
            if self.values[w].is_some() {
                return Some((w, empty));
            }
        }
        None
    }

    /// Resolves a request path: the value of the first pattern that the
    /// search finds, trying literal, then param, then consume, then wildcard
    /// edges at each node, with the captures made on the way; `NotFound`
    /// when no pattern matches.
    pub fn match_path(&self, path: &str) -> (r: Result<MatchResult<'_, V>, MatchError>)
        requires
            self.wf(),
        ensures
            match self.resolve(path@) {
                Some(m) => r matches Ok(x) && self.values()[m.0 as int] == Some(*x.value)
                    && caps_view(x.params@) == m.1,
                None => r matches Err(e) && e is NotFound,
            },
    {
        let parts = split_path(path);
        let mut segs: Vec<String> = Vec::new();
        let mut i: usize = 0;
        while i < parts.len()
            invariant
                i <= parts@.len(),
                texts(parts@) == split_spec(path@),
                strings_view(segs@) =~= texts(parts@).subrange(0, i as int),
            decreases parts@.len() - i,
        {
            let ghost before = segs@;
            segs.push(String::from_str(parts[i]));
            assert(strings_view(segs@) =~= strings_view(before).push(parts@[i as int]@));
            i = i + 1;
        }
        assert(texts(parts@).subrange(0, i as int) =~= texts(parts@));
        match self.match_from(0, &segs, 0) {
            Some(x) => {
                let t = x.0;
                let params = x.1;
                match &self.values[t] {
                    Some(v) => Ok(MatchResult { value: v, params }),
                    None => Err(MatchError::NotFound),
                }
            },
            None => Err(MatchError::NotFound),
        }
    }
}


} // verus!
