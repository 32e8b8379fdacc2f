//! Pattern matching through the `regex` crate, and slicing of text by the
//! byte offsets that it reports.

use vstd::prelude::*;
use vstd::utf8::*;
use vstd::string::StringSliceAdditionalSpecFns;

verus! {

broadcast use group_utf8_lib;

/// One match of a pattern in a haystack: the byte offsets of the whole match
/// and the text of the first capture group, when that group took part.
pub struct PatternMatch {
    pub start: usize,
    pub end: usize,
    pub group: Option<String>,
}

/// A match as plain values.
pub type MatchSpan = (usize, usize, Option<Seq<char>>);

pub open spec fn span_of(m: PatternMatch) -> MatchSpan {
    (m.start, m.end, match m.group {
        Some(g) => Some(g@),
        None => None,
    })
}

pub open spec fn spans_of(v: Seq<PatternMatch>) -> Seq<MatchSpan> {
    v.map_values(|m: PatternMatch| span_of(m))
}

/// Whether `Regex::new` accepts the pattern.
pub uninterp spec fn pattern_compiles(pattern: Seq<char>) -> bool;

/// The successive non-overlapping matches that `Regex::captures_iter` yields.
pub uninterp spec fn pattern_captures(pattern: Seq<char>, haystack: Seq<char>) -> Seq<MatchSpan>;

/// What `Regex::replace_all` returns for a haystack and a replacement template.
pub uninterp spec fn pattern_replace_all(
    pattern: Seq<char>,
    haystack: Seq<char>,
    template: Seq<char>,
) -> Seq<char>;

/// The text between two byte offsets of `text`'s UTF-8 encoding.
pub open spec fn piece(text: Seq<char>, a: int, b: int) -> Seq<char> {
    decode_utf8(encode_utf8(text).subrange(a, b))
}

/// Whether `a..b` is a range of `text`'s encoding that starts and ends on
/// character boundaries.
pub open spec fn valid_range(text: Seq<char>, a: int, b: int) -> bool {
    &&& 0 <= a <= b <= encode_utf8(text).len()
    &&& is_char_boundary(encode_utf8(text), a)
    &&& is_char_boundary(encode_utf8(text), b)
}

/// Matches lie on character boundaries of the haystack, without
/// overlapping, and their starts strictly increase.
pub open spec fn spans_well_formed(text: Seq<char>, ms: Seq<MatchSpan>) -> bool {
    &&& forall|k: int| 0 <= k < ms.len() ==> valid_range(text, #[trigger] ms[k].0 as int, ms[k].1 as int)
    &&& forall|k: int, l: int| 0 <= k < l < ms.len() ==> #[trigger] ms[k].1 <= #[trigger] ms[l].0
    &&& forall|k: int, l: int| 0 <= k < l < ms.len() ==> #[trigger] ms[k].0 < #[trigger] ms[l].0
}

/// Compiles `pattern` with `Regex::new` and collects `captures_iter` over
/// `haystack`. Claims: the result is present exactly when the pattern
/// compiles; it is the named sequence of matches; match offsets fall on
/// UTF-8 boundaries, successive matches do not overlap, and each starts
/// after the one before (the searcher retries one byte further on when an
/// empty match would begin where the previous match ended).
#[verifier::external_body]
pub(crate) fn find_matches(pattern: &str, haystack: &str) -> (r: Option<Vec<PatternMatch>>)
    ensures
        r is Some <==> pattern_compiles(pattern@),
        r matches Some(v) ==> spans_of(v@) == pattern_captures(pattern@, haystack@),
        r matches Some(v) ==> spans_well_formed(haystack@, spans_of(v@)),
{
    match ::regex::Regex::new(pattern) {
        Ok(re) => Some(re.captures_iter(haystack).map(|c| PatternMatch {
            start: c.get_match().start(),
            end: c.get_match().end(),
            group: c.get(1).map(|g| g.as_str().to_string()),
        }).collect()),
        Err(_) => None,
    }
}

/// Compiles `pattern` with `Regex::new` and calls `replace_all` on
/// `haystack` with the replacement `template` (where `$1` stands for the first
/// group). Claims: the result is present exactly when the pattern compiles,
/// and it is then the named replacement result.
#[verifier::external_body]
pub(crate) fn replace_pattern(pattern: &str, haystack: &str, template: &str) -> (r: Option<String>)
    ensures
        r is Some <==> pattern_compiles(pattern@),
        r matches Some(s) ==> s@ == pattern_replace_all(pattern@, haystack@, template@),
{
    match ::regex::Regex::new(pattern) {
        Ok(re) => Some(re.replace_all(haystack, template).into_owned()),
        Err(_) => None,
    }
}

proof fn lemma_prefix_boundary(b: Seq<u8>, end: int, a: int)
    requires
        valid_utf8(b),
        0 <= a <= end <= b.len(),
        is_char_boundary(b, a),
        is_char_boundary(b, end),
    ensures
        valid_utf8(b.subrange(0, end)),
        is_char_boundary(b.subrange(0, end), a),
{
    valid_utf8_split(b, end);
    let p = b.subrange(0, end);
    if a == end {
        is_char_boundary_start_end_of_seq(p);
    } else {
        is_char_boundary_iff_not_is_continuation_byte(b, a);
        is_char_boundary_iff_not_is_continuation_byte(p, a);
    }
}

/// Two adjacent pieces make up the piece that spans both.
pub proof fn lemma_piece_concat(text: Seq<char>, a: int, b: int, c: int)
    requires
        valid_range(text, a, b),
        valid_range(text, b, c),
    ensures
        piece(text, a, b) + piece(text, b, c) == piece(text, a, c),
{
    let bytes = encode_utf8(text);
    lemma_prefix_boundary(bytes, c, a);
    let pre = bytes.subrange(0, c);
    valid_utf8_split(pre, a);
    let s = bytes.subrange(a, c);
    assert(pre.subrange(a, pre.len() as int) =~= s);
    if b == c {
        is_char_boundary_start_end_of_seq(s);
    } else {
        is_char_boundary_iff_not_is_continuation_byte(bytes, b);
        assert(s[b - a] == bytes[b]);
        is_char_boundary_iff_not_is_continuation_byte(s, b - a);
    }
    decode_utf8_split(s, b - a);
    assert(s.subrange(0, b - a) =~= bytes.subrange(a, b));
    assert(s.subrange(b - a, s.len() as int) =~= bytes.subrange(b, c));
}

/// The piece that spans the whole encoding is the text.
pub proof fn lemma_piece_whole(text: Seq<char>)
    ensures
        piece(text, 0, encode_utf8(text).len() as int) == text,
        valid_range(text, 0, encode_utf8(text).len() as int),
{
    let bytes = encode_utf8(text);
    assert(bytes.subrange(0, bytes.len() as int) =~= bytes);
    is_char_boundary_start_end_of_seq(bytes);
}

/// The text between byte offsets `a` and `b` of `text`.
pub fn byte_slice(text: &str, a: usize, b: usize) -> (r: &str)
    requires
        valid_range(text@, a as int, b as int),
    ensures
        r@ == piece(text@, a as int, b as int),
{
    let ghost bytes = encode_utf8(text@);
    proof {
        lemma_prefix_boundary(bytes, b as int, a as int);
    }
    let (left, _) = text.split_at(b);
    assert(left.spec_bytes() == bytes.subrange(0, b as int));
    let (_, mid) = left.split_at(a);
    proof {
        assert(mid.spec_bytes() =~= bytes.subrange(a as int, b as int));
        encode_utf8_decode_utf8(mid@);
    }
    mid
}

} // verus!
