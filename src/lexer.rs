use crate::error::LexerError;
use crate::segment_type::{parse_segment, SegmentType, SegmentView};
use vstd::prelude::*;
use vstd::string::*;

verus! {

/// The pieces of `s` between slashes, empty pieces kept; never empty.
pub open spec fn split_raw(s: Seq<char>) -> Seq<Seq<char>>
    decreases s.len(),
{
    if s.len() == 0 {
        seq![Seq::<char>::empty()]
    } else {
        let pre = split_raw(s.drop_last());
        if s.last() == '/' {
            pre.push(Seq::<char>::empty())
        } else {
            pre.update(pre.len() - 1, pre.last().push(s.last()))
        }
    }
}

/// The segment texts of a path: none for the empty text, else the pieces
/// between slashes.
pub open spec fn split_spec(s: Seq<char>) -> Seq<Seq<char>> {
    if s.len() == 0 {
        Seq::empty()
    } else {
        split_raw(s)
    }
}

/// The segments that a pattern text is read as.
pub open spec fn tokens_of(s: Seq<char>) -> Seq<SegmentView> {
    split_spec(s).map_values(|t: Seq<char>| parse_segment(t))
}

pub open spec fn texts<'a>(v: Seq<&'a str>) -> Seq<Seq<char>> {
    v.map_values(|t: &'a str| t@)
}

pub open spec fn segment_views<'a>(v: Seq<SegmentType<'a>>) -> Seq<SegmentView> {
    v.map_values(|t: SegmentType<'a>| t@)
}

pub proof fn lemma_split_raw_nonempty(s: Seq<char>)
    ensures
        split_raw(s).len() >= 1,
    decreases s.len(),
{
    if s.len() > 0 {
        lemma_split_raw_nonempty(s.drop_last());
    }
}

/// Splits `raw` on `/`, keeping empty pieces; the empty text has no pieces.
pub fn split_path<'a>(raw: &'a str) -> (r: Vec<&'a str>)
    ensures
        texts(r@) == split_spec(raw@),
{
    let n = raw.unicode_len();
    let mut parts: Vec<&'a str> = Vec::new();
    if n == 0 {
        assert(texts(parts@) =~= split_spec(raw@));
        return parts;
    }
    let mut start: usize = 0;
    let mut i: usize = 0;
    assert(raw@.subrange(0, 0) =~= Seq::<char>::empty());
    assert(texts(parts@) + seq![raw@.subrange(0, 0)] =~= split_raw(raw@.subrange(0, 0)));
    while i < n
        invariant
            n == raw@.len(),
            start <= i <= n,
            texts(parts@) + seq![raw@.subrange(start as int, i as int)] == split_raw(
                raw@.subrange(0, i as int),
            ),
        decreases n - i,
    {
        let c = raw.get_char(i);
        let ghost prefix = raw@.subrange(0, i as int + 1);
        assert(prefix.drop_last() =~= raw@.subrange(0, i as int));
        assert(prefix.last() == c);
        if c == '/' {
            let piece = raw.substring_char(start, i);
            let ghost old_parts = parts@;
            parts.push(piece);
            assert(texts(parts@) =~= texts(old_parts) + seq![raw@.subrange(start as int, i as int)]);
            assert(raw@.subrange(i as int + 1, i as int + 1) =~= Seq::<char>::empty());
            assert(texts(parts@) + seq![raw@.subrange(i as int + 1, i as int + 1)] =~= split_raw(prefix));
            start = i + 1;
        } else {
            let ghost pre = split_raw(raw@.subrange(0, i as int));
            assert(raw@.subrange(start as int, i as int + 1) =~= raw@.subrange(start as int, i as int).push(c));
            assert(texts(parts@) + seq![raw@.subrange(start as int, i as int + 1)] =~= pre.update(
                pre.len() - 1,
                pre.last().push(c),
            ));
        }
        i = i + 1;
    }
    let piece = raw.substring_char(start, n);
    let ghost old_parts = parts@;
    parts.push(piece);
    assert(raw@.subrange(0, n as int) =~= raw@);
    assert(texts(parts@) =~= texts(old_parts) + seq![raw@.subrange(start as int, n as int)]);
    parts
}

/// Splits `raw` on `/` and reads each piece as a segment. Every text can be
/// split; `InvalidPath` is kept for malformed input and never arises here.
pub fn tokenize<'a>(raw: &'a str) -> (r: Result<Vec<SegmentType<'a>>, LexerError>)
    ensures
        r is Ok,
        r matches Ok(v) && segment_views(v@) == tokens_of(raw@),
{
    let parts = split_path(raw);
    let mut out: Vec<SegmentType<'a>> = Vec::new();
    let mut i: usize = 0;
    while i < parts.len()
        invariant
            i <= parts@.len(),
            texts(parts@) == split_spec(raw@),
            segment_views(out@) =~= texts(parts@).subrange(0, i as int).map_values(
                |t: Seq<char>| parse_segment(t),
            ),
        decreases parts@.len() - i,
    {
        let seg = SegmentType::parse(parts[i]);
        assert(texts(parts@)[i as int] == parts@[i as int]@);
        let ghost old_out = out@;
        out.push(seg);
        assert(segment_views(out@) =~= segment_views(old_out).push(seg@));
        i = i + 1;
        assert(segment_views(out@) =~= texts(parts@).subrange(0, i as int).map_values(
            |t: Seq<char>| parse_segment(t),
        ));
    }
    assert(texts(parts@).subrange(0, i as int) =~= texts(parts@));
    Ok(out)
}

} // verus!
