use vstd::prelude::*;
use vstd::string::*;

verus! {

/// What one segment means, over character sequences.
pub enum SegmentView {
    Static(Seq<char>),
    Param(Seq<char>),
    Consume(Seq<char>),
    Wildcard,
}

/// How the text of one segment is read: `*` alone is a wildcard, a leading
/// `:` names a parameter, a leading `*` names a consuming capture, and any
/// other text (the empty text included) is matched literally.
pub open spec fn parse_segment(s: Seq<char>) -> SegmentView {
    if s =~= seq!['*'] {
        SegmentView::Wildcard
    } else if s.len() > 0 && s[0] == ':' {
        SegmentView::Param(s.drop_first())
    } else if s.len() > 0 && s[0] == '*' {
        SegmentView::Consume(s.drop_first())
    } else {
        SegmentView::Static(s)
    }
}

/// Consume and Wildcard segments may only stand last in a pattern.
pub open spec fn is_terminal_kind(s: SegmentView) -> bool {
    s is Consume || s is Wildcard
}

#[derive(Clone, Debug, PartialEq)]
pub enum SegmentType<'a> {
    /// Exactly matched
    Static { path: &'a str },
    /// Convert single segment value into a param with provided key
    Param { key: &'a str },
    /// Convert remaining path value into a param with provided key
    Consume { key: &'a str },
    /// Match but discard remaining segments beyond this one
    Wildcard,
}

impl<'a> View for SegmentType<'a> {
    type V = SegmentView;

    open spec fn view(&self) -> SegmentView {
        match self {
            SegmentType::Static { path } => SegmentView::Static(path@),
            SegmentType::Param { key } => SegmentView::Param(key@),
            SegmentType::Consume { key } => SegmentView::Consume(key@),
            SegmentType::Wildcard => SegmentView::Wildcard,
        }
    }
}

impl<'a> SegmentType<'a> {
    /// Reads one segment's text; the keys and the literal text borrow from `src`.
    pub fn parse(src: &'a str) -> (r: SegmentType<'a>)
        ensures
            r@ == parse_segment(src@),
    {
        let n = src.unicode_len();
        if n == 0 {
            return SegmentType::Static { path: src };
        }
        let c = src.get_char(0);
        if c == '*' && n == 1 {
            assert(src@ =~= seq!['*']);
            return SegmentType::Wildcard;
        }
        if c == ':' {
            let key = src.substring_char(1, n);
            assert(key@ =~= src@.drop_first());
            return SegmentType::Param { key };
        }
        if c == '*' {
            let key = src.substring_char(1, n);
            assert(key@ =~= src@.drop_first());
            assert(!(src@ =~= seq!['*']));
            return SegmentType::Consume { key };
        }
        assert(!(src@ =~= seq!['*']));
        SegmentType::Static { path: src }
    }
}

impl<'a> From<&'a str> for SegmentType<'a> {
    fn from(src: &'a str) -> SegmentType<'a> {
        SegmentType::parse(src)
    }
}

// A `&str` cannot be built in specifications, so `from` is described by
// `SegmentType::parse`, which it calls.
impl<'a> vstd::std_specs::convert::FromSpecImpl<&'a str> for SegmentType<'a> {
    open spec fn obeys_from_spec() -> bool {
        false
    }

    open spec fn from_spec(v: &'a str) -> SegmentType<'a> {
        SegmentType::Static { path: v }
    }
}

} // verus!
