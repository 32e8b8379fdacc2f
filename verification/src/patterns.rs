//! Rewriting of outgoing messages: `@user`, `#channel` and `:emoji:` tokens
//! become Discord markup, using name/id directories fetched from the guild.

use vstd::prelude::*;
use vstd::utf8::*;
use vstd::string::StringSliceAdditionalSpecFns;

use crate::matching::{
    byte_slice, find_matches, lemma_piece_concat, lemma_piece_whole, piece, span_of, pattern_captures, pattern_compiles, pattern_replace_all,
    replace_pattern, spans_of, spans_well_formed, valid_range, MatchSpan, PatternMatch,
};
use crate::text::{
    chars_of, decimal, digits_value, is_digit, lemma_decimal_digits, push_decimal, replace_all,
    replace_all_exec, string_of,
};

verus! {

broadcast use group_utf8_lib;

/// A guild member, channel or emoji: its name and its id.
pub struct NamedId {
    pub name: String,
    pub id: u64,
}

pub open spec fn entry_view(e: NamedId) -> (Seq<char>, u64) {
    (e.name@, e.id)
}

/// A directory as plain values.
pub open spec fn directory(v: Seq<NamedId>) -> Seq<(Seq<char>, u64)> {
    v.map_values(|e: NamedId| entry_view(e))
}

/// The id of the first entry whose name is `name`.
pub open spec fn lookup_id(entries: Seq<(Seq<char>, u64)>, name: Seq<char>) -> Option<u64>
    decreases entries.len(),
{
    if entries.len() == 0 {
        None
    } else if entries[0].0 == name {
        Some(entries[0].1)
    } else {
        lookup_id(entries.drop_first(), name)
    }
}

/// The id of the first entry named `name`, if there is one.
pub fn find_id(entries: &Vec<NamedId>, name: &String) -> (r: Option<u64>)
    ensures
        r == lookup_id(directory(entries@), name@),
{
    let ghost d = directory(entries@);
    let mut i: usize = 0;
    assert(d.skip(0) =~= d);
    while i < entries.len()
        invariant
            i <= entries.len(),
            d == directory(entries@),
            lookup_id(d.skip(i as int), name@) == lookup_id(d, name@),
        decreases entries.len() - i,
    {
        proof {
            assert(d.skip(i as int).drop_first() =~= d.skip(i + 1));
            assert(d.skip(i as int)[0] == entry_view(entries@[i as int]));
        }
        if entries[i].name == *name {
            return Some(entries[i].id);
        }
        i += 1;
    }
    proof {
        assert(d.skip(i as int).len() == 0);
    }
    None
}

/// The markup that a resolved reference becomes, such as `<@42>` or `<#42>`.
pub open spec fn reference_markup(sigil: char, id: u64) -> Seq<char> {
    seq!['<', sigil] + decimal(id as nat) + seq!['>']
}

/// What one captured reference becomes: the markup for the id of its name
/// where the directory knows the name, else the captured text as written.
pub open spec fn reference_text(
    text: Seq<char>,
    sigil: char,
    m: MatchSpan,
    entries: Seq<(Seq<char>, u64)>,
) -> Seq<char> {
    match m.2 {
        Some(name) => match lookup_id(entries, name) {
            Some(id) => reference_markup(sigil, id),
            None => piece(text, m.0 as int, m.1 as int),
        },
        None => piece(text, m.0 as int, m.1 as int),
    }
}

/// The text from byte offset `last` on, with each captured reference
/// replaced by its reference text; the text between captures is kept.
pub open spec fn resolve_refs(
    text: Seq<char>,
    sigil: char,
    caps: Seq<MatchSpan>,
    entries: Seq<(Seq<char>, u64)>,
    last: int,
) -> Seq<char>
    decreases caps.len(),
{
    if caps.len() == 0 {
        piece(text, last, encode_utf8(text).len() as int)
    } else {
        piece(text, last, caps[0].0 as int) + reference_text(text, sigil, caps[0], entries)
            + resolve_refs(text, sigil, caps.drop_first(), entries, caps[0].1 as int)
    }
}

/// The reference text of one capture.
fn reference_chars(text: &str, sigil: char, m: &PatternMatch, entries: &Vec<NamedId>) -> (r: Vec<char>)
    requires
        valid_range(text@, m.start as int, m.end as int),
    ensures
        r@ == reference_text(text@, sigil, span_of(*m), directory(entries@)),
{
    match &m.group {
        Some(name) => match find_id(entries, name) {
            Some(id) => {
                let mut markup: Vec<char> = vec!['<', sigil];
                push_decimal(&mut markup, id);
                markup.push('>');
                assert(markup@ =~= reference_markup(sigil, id));
                markup
            },
            None => chars_of(byte_slice(text, m.start, m.end)),
        },
        None => chars_of(byte_slice(text, m.start, m.end)),
    }
}

/// Rewrites the references that `captures` found in `message`: each capture
/// whose name the directory knows becomes the markup for its id; every other
/// character stays as it was.
pub fn resolve_references(
    message: &str,
    sigil: char,
    captures: &Vec<PatternMatch>,
    entries: &Vec<NamedId>,
) -> (r: String)
    requires
        spans_well_formed(message@, spans_of(captures@)),
    ensures
        r@ == resolve_refs(message@, sigil, spans_of(captures@), directory(entries@), 0),
{
    let ghost caps = spans_of(captures@);
    let ghost d = directory(entries@);
    let ghost bytes = encode_utf8(message@);
    let mut out: Vec<char> = Vec::new();
    let mut last: usize = 0;
    let mut i: usize = 0;
    assert(caps.skip(0) =~= caps);
    proof {
        is_char_boundary_start_end_of_seq(bytes);
    }
    while i < captures.len()
        invariant
            i <= captures.len(),
            caps == spans_of(captures@),
            d == directory(entries@),
            bytes == encode_utf8(message@),
            spans_well_formed(message@, caps),
            last <= bytes.len(),
            is_char_boundary(bytes, last as int),
            forall|k: int| i <= k < caps.len() ==> last <= #[trigger] caps[k].0,
            out@ + resolve_refs(message@, sigil, caps.skip(i as int), d, last as int)
                == resolve_refs(message@, sigil, caps, d, 0),
        decreases captures.len() - i,
    {
        let ghost t = caps.skip(i as int);
        let ghost before = out@;
        let m = &captures[i];
        proof {
            assert(t.drop_first() =~= caps.skip(i + 1));
            assert(t[0] == caps[i as int]);
            assert(caps[i as int] == span_of(captures@[i as int]));
            assert(valid_range(message@, caps[i as int].0 as int, caps[i as int].1 as int));
        }
        let gap = byte_slice(message, last, m.start);
        out.extend_from_slice(chars_of(gap).as_slice());
        let rep = reference_chars(message, sigil, m, entries);
        out.extend_from_slice(rep.as_slice());
        proof {
            assert(out@ =~= before + (piece(message@, last as int, t[0].0 as int) + reference_text(message@, sigil, t[0], d)));
            assert forall|k: int| i + 1 <= k < caps.len() implies m.end <= #[trigger] caps[k].0 by {
                assert(caps[i as int].1 <= caps[k].0);
            }
        }
        last = m.end;
        i += 1;
    }
    proof {
        assert(caps.skip(i as int).len() == 0);
        is_char_boundary_start_end_of_seq(bytes);
    }
    let ghost before = out@;
    let n = message.as_bytes().len();
    assert(n == bytes.len());
    assert(is_char_boundary(bytes, n as int));
    let tail = byte_slice(message, last, n);
    out.extend_from_slice(chars_of(tail).as_slice());
    assert(out@ =~= before + resolve_refs(message@, sigil, caps.skip(i as int), d, last as int));
    string_of(&out)
}

/// Where no capture from `last` on names a known entry, what is rebuilt from
/// `last` on is the text from `last` on.
proof fn lemma_unknown_refs(
    text: Seq<char>,
    sigil: char,
    caps: Seq<MatchSpan>,
    entries: Seq<(Seq<char>, u64)>,
    last: int,
)
    requires
        spans_well_formed(text, caps),
        valid_range(text, last, last),
        forall|k: int| 0 <= k < caps.len() ==> last <= #[trigger] caps[k].0,
        forall|k: int| 0 <= k < caps.len() ==> reference_text(text, sigil, #[trigger] caps[k], entries)
            == piece(text, caps[k].0 as int, caps[k].1 as int),
    ensures
        resolve_refs(text, sigil, caps, entries, last) == piece(text, last, encode_utf8(text).len() as int),
    decreases caps.len(),
{
    let n = encode_utf8(text).len() as int;
    lemma_piece_whole(text);
    if caps.len() == 0 {
        assert(valid_range(text, last, n));
    } else {
        let m = caps[0];
        let rest = caps.drop_first();
        assert(valid_range(text, m.0 as int, m.1 as int));
        assert forall|k: int| 0 <= k < rest.len() implies valid_range(text, #[trigger] rest[k].0 as int, rest[k].1 as int) by {
            assert(rest[k] == caps[k + 1]);
        }
        assert forall|k: int, l: int| 0 <= k < l < rest.len() implies #[trigger] rest[k].1 <= #[trigger] rest[l].0 by {
            assert(rest[k] == caps[k + 1] && rest[l] == caps[l + 1]);
        }
        assert forall|k: int, l: int| 0 <= k < l < rest.len() implies #[trigger] rest[k].0 < #[trigger] rest[l].0 by {
            assert(rest[k] == caps[k + 1] && rest[l] == caps[l + 1]);
        }
        assert forall|k: int| 0 <= k < rest.len() implies m.1 <= #[trigger] rest[k].0 by {
            assert(rest[k] == caps[k + 1]);
            assert(caps[0].1 <= caps[k + 1].0);
        }
        assert forall|k: int| 0 <= k < rest.len() implies reference_text(text, sigil, #[trigger] rest[k], entries)
            == piece(text, rest[k].0 as int, rest[k].1 as int) by {
            assert(rest[k] == caps[k + 1]);
        }
        lemma_unknown_refs(text, sigil, rest, entries, m.1 as int);
        assert(reference_text(text, sigil, m, entries) == piece(text, m.0 as int, m.1 as int));
        lemma_piece_concat(text, m.0 as int, m.1 as int, n);
        lemma_piece_concat(text, last, m.0 as int, n);
        assert(piece(text, last, m.0 as int) + reference_text(text, sigil, m, entries)
            + resolve_refs(text, sigil, rest, entries, m.1 as int)
            =~= piece(text, last, m.0 as int) + (piece(text, m.0 as int, m.1 as int) + piece(text, m.1 as int, n)));
    }
}

/// A captured reference whose name the directory does not know is kept as
/// written: when no captured name is known, the message comes back
/// unchanged.
pub proof fn law_unknown_names_kept(
    text: Seq<char>,
    sigil: char,
    caps: Seq<MatchSpan>,
    entries: Seq<(Seq<char>, u64)>,
)
    requires
        spans_well_formed(text, caps),
        forall|k: int| 0 <= k < caps.len() ==> match (#[trigger] caps[k]).2 {
            Some(name) => lookup_id(entries, name) is None,
            None => true,
        },
    ensures
        resolve_refs(text, sigil, caps, entries, 0) == text,
{
    lemma_piece_whole(text);
    is_char_boundary_start_end_of_seq(encode_utf8(text));
    lemma_unknown_refs(text, sigil, caps, entries, 0);
}

/// How many matches the pattern finds in the message; `None` when the
/// pattern does not compile.
pub fn match_count(pattern: &str, message: &str) -> (r: Option<usize>)
    ensures
        r is Some <==> pattern_compiles(pattern@),
        r matches Some(n) ==> n == pattern_captures(pattern@, message@).len(),
{
    match find_matches(pattern, message) {
        Some(v) => Some(v.len()),
        None => None,
    }
}

/// The directory gives the id of the first entry with the name, and nothing
/// exactly when no entry has it.
pub proof fn law_lookup_first(entries: Seq<(Seq<char>, u64)>, name: Seq<char>)
    ensures
        lookup_id(entries, name) is None <==> forall|j: int| 0 <= j < entries.len() ==> #[trigger] entries[j].0 != name,
        forall|j: int|
            0 <= j < entries.len() && #[trigger] entries[j].0 == name && (forall|i: int| 0 <= i < j ==> entries[i].0 != name)
                ==> lookup_id(entries, name) == Some(entries[j].1),
    decreases entries.len(),
{
    if entries.len() > 0 {
        let t = entries.drop_first();
        law_lookup_first(t, name);
        assert forall|j: int| 1 <= j < entries.len() implies entries[j] == t[j - 1] by {}
        if entries[0].0 != name {
            assert((forall|j: int| 0 <= j < t.len() ==> #[trigger] t[j].0 != name) ==> (forall|j: int|
                0 <= j < entries.len() ==> #[trigger] entries[j].0 != name)) by {
                if forall|j: int| 0 <= j < t.len() ==> #[trigger] t[j].0 != name {
                    assert forall|j: int| 0 <= j < entries.len() implies #[trigger] entries[j].0 != name by {
                        if j > 0 {
                            assert(entries[j] == t[j - 1]);
                        }
                    }
                }
            }
            assert forall|j: int|
                0 <= j < entries.len() && #[trigger] entries[j].0 == name && (forall|i: int| 0 <= i < j ==> entries[i].0 != name)
                    implies lookup_id(entries, name) == Some(entries[j].1) by {
                assert(j > 0);
                assert(entries[j] == t[j - 1]);
                assert forall|i: int| 0 <= i < j - 1 implies t[i].0 != name by {
                    assert(t[i] == entries[i + 1]);
                }
            }
        }
    }
}

/// The markup of a known emoji carries its name and its whole id, in
/// decimal digits that read back as the id; an unknown emoji is escaped.
pub proof fn law_emoji_markup_ids(name: Seq<char>, emojis: Seq<(Seq<char>, u64)>)
    ensures
        lookup_id(emojis, name) matches Some(k) ==> ({
            let m = emoji_markup(name, emojis);
            let d = m.subrange(name.len() + 3int, m.len() - 1);
            &&& m == seq!['<', ':'] + name + seq![':'] + d + seq!['>']
            &&& d.len() > 0
            &&& forall|i: int| 0 <= i < d.len() ==> is_digit(#[trigger] d[i])
            &&& digits_value(d) == k
        }),
        lookup_id(emojis, name) is None ==> emoji_markup(name, emojis) == seq!['!', '(', '!'] + name + seq!['!', ')', '!'],
{
    if let Some(k) = lookup_id(emojis, name) {
        let m = emoji_markup(name, emojis);
        lemma_decimal_digits(k as nat);
        let d = m.subrange(name.len() + 3int, m.len() - 1);
        assert(d =~= decimal(k as nat));
        assert(m =~= seq!['<', ':'] + name + seq![':'] + d + seq!['>']);
    }
}

/// The markup of a resolved reference carries the sigil and the whole id, in
/// decimal digits that read back as the id.
pub proof fn law_reference_markup_ids(sigil: char, id: u64)
    ensures
        ({
            let m = reference_markup(sigil, id);
            let d = m.subrange(2, m.len() - 1);
            &&& m == seq!['<', sigil] + d + seq!['>']
            &&& d.len() > 0
            &&& forall|i: int| 0 <= i < d.len() ==> is_digit(#[trigger] d[i])
            &&& digits_value(d) == id
        }),
{
    let m = reference_markup(sigil, id);
    lemma_decimal_digits(id as nat);
    let d = m.subrange(2, m.len() - 1);
    assert(d =~= decimal(id as nat));
    assert(m =~= seq!['<', sigil] + d + seq!['>']);
}

proof fn lemma_refs_rest(text: Seq<char>, caps: Seq<MatchSpan>)
    requires
        spans_well_formed(text, caps),
        caps.len() > 0,
    ensures
        spans_well_formed(text, caps.drop_first()),
        forall|k: int| 0 <= k < caps.drop_first().len() ==> caps[0].1 <= #[trigger] caps.drop_first()[k].0,
        valid_range(text, caps[0].0 as int, caps[0].1 as int),
{
    let rest = caps.drop_first();
    assert(valid_range(text, caps[0].0 as int, caps[0].1 as int));
    assert forall|k: int| 0 <= k < rest.len() implies valid_range(text, #[trigger] rest[k].0 as int, rest[k].1 as int) by {
        assert(rest[k] == caps[k + 1]);
    }
    assert forall|k: int, l: int| 0 <= k < l < rest.len() implies #[trigger] rest[k].1 <= #[trigger] rest[l].0 by {
        assert(rest[k] == caps[k + 1] && rest[l] == caps[l + 1]);
    }
    assert forall|k: int, l: int| 0 <= k < l < rest.len() implies #[trigger] rest[k].0 < #[trigger] rest[l].0 by {
        assert(rest[k] == caps[k + 1] && rest[l] == caps[l + 1]);
    }
    assert forall|k: int| 0 <= k < rest.len() implies caps[0].1 <= #[trigger] rest[k].0 by {
        assert(rest[k] == caps[k + 1]);
        assert(caps[0].1 <= caps[k + 1].0);
    }
}

/// The message before the first capture and after the last one is kept as
/// it was, whether or not the captures were resolved.
pub proof fn law_refs_keep_head_and_tail(
    text: Seq<char>,
    sigil: char,
    caps: Seq<MatchSpan>,
    entries: Seq<(Seq<char>, u64)>,
    last: int,
)
    requires
        spans_well_formed(text, caps),
        caps.len() > 0,
        valid_range(text, last, last),
        forall|k: int| 0 <= k < caps.len() ==> last <= #[trigger] caps[k].0,
    ensures
        piece(text, last, caps[0].0 as int).is_prefix_of(resolve_refs(text, sigil, caps, entries, last)),
        piece(text, caps.last().1 as int, encode_utf8(text).len() as int).is_suffix_of(
            resolve_refs(text, sigil, caps, entries, last),
        ),
    decreases caps.len(),
{
    let r = resolve_refs(text, sigil, caps, entries, last);
    let h = piece(text, last, caps[0].0 as int);
    let rest = caps.drop_first();
    let rr = resolve_refs(text, sigil, rest, entries, caps[0].1 as int);
    let mid = reference_text(text, sigil, caps[0], entries);
    assert(r == h + mid + rr);
    assert(h =~= r.subrange(0, h.len() as int));
    lemma_refs_rest(text, caps);
    let tail = piece(text, caps.last().1 as int, encode_utf8(text).len() as int);
    if rest.len() == 0 {
        assert(rr == tail);
    } else {
        law_refs_keep_head_and_tail(text, sigil, rest, entries, caps[0].1 as int);
        assert(rest.last() == caps.last());
    }
    assert(tail =~= r.subrange(r.len() - tail.len(), r.len() as int));
}

/// A message with one capture: the text before it, then its markup when the
/// directory knows the name (the captured text as written otherwise), then
/// the text after it.
pub proof fn law_single_reference(text: Seq<char>, sigil: char, m: MatchSpan, entries: Seq<(Seq<char>, u64)>)
    requires
        valid_range(text, m.0 as int, m.1 as int),
    ensures
        resolve_refs(text, sigil, seq![m], entries, 0) == piece(text, 0, m.0 as int) + (match m.2 {
            Some(name) => match lookup_id(entries, name) {
                Some(id) => seq!['<', sigil] + decimal(id as nat) + seq!['>'],
                None => piece(text, m.0 as int, m.1 as int),
            },
            None => piece(text, m.0 as int, m.1 as int),
        }) + piece(text, m.1 as int, encode_utf8(text).len() as int),
{
    let caps = seq![m];
    let n = encode_utf8(text).len() as int;
    assert(caps.drop_first() =~= Seq::<MatchSpan>::empty());
    assert(caps[0] == m);
    assert(resolve_refs(text, sigil, caps.drop_first(), entries, m.1 as int) == piece(text, m.1 as int, n));
    assert(resolve_refs(text, sigil, caps, entries, 0) == piece(text, 0, m.0 as int) + reference_text(
        text,
        sigil,
        m,
        entries,
    ) + piece(text, m.1 as int, n));
}

/// The total length of the captured spans.
pub open spec fn spans_len(text: Seq<char>, caps: Seq<MatchSpan>) -> int
    decreases caps.len(),
{
    if caps.len() == 0 {
        0
    } else {
        piece(text, caps[0].0 as int, caps[0].1 as int).len() + spans_len(text, caps.drop_first())
    }
}

/// The total length of what the captured spans become.
pub open spec fn replaced_len(text: Seq<char>, sigil: char, caps: Seq<MatchSpan>, entries: Seq<(Seq<char>, u64)>) -> int
    decreases caps.len(),
{
    if caps.len() == 0 {
        0
    } else {
        reference_text(text, sigil, caps[0], entries).len() + replaced_len(text, sigil, caps.drop_first(), entries)
    }
}

/// Only the captured spans change: the rewritten text is as long as the
/// text, less the captured spans, plus what they became. No character
/// outside a capture is lost or added.
pub proof fn law_refs_length(
    text: Seq<char>,
    sigil: char,
    caps: Seq<MatchSpan>,
    entries: Seq<(Seq<char>, u64)>,
    last: int,
)
    requires
        spans_well_formed(text, caps),
        valid_range(text, last, last),
        forall|k: int| 0 <= k < caps.len() ==> last <= #[trigger] caps[k].0,
    ensures
        resolve_refs(text, sigil, caps, entries, last).len() == piece(text, last, encode_utf8(text).len() as int).len()
            - spans_len(text, caps) + replaced_len(text, sigil, caps, entries),
    decreases caps.len(),
{
    let n = encode_utf8(text).len() as int;
    lemma_piece_whole(text);
    if caps.len() > 0 {
        let m = caps[0];
        lemma_refs_rest(text, caps);
        law_refs_length(text, sigil, caps.drop_first(), entries, m.1 as int);
        lemma_piece_concat(text, m.0 as int, m.1 as int, n);
        lemma_piece_concat(text, last, m.0 as int, n);
    }
}

/// The pattern of a user reference: `@` and a run of non-space characters.
pub const MENTION_PATTERN: &'static str = "@(\\S+)";

/// The pattern of a channel reference: `#` and a run of non-space characters.
pub const CHANNEL_PATTERN: &'static str = "#(\\S+)";

/// Turns each captured `@name` whose name a guild member has into `<@id>`,
/// leaving unknown names and the rest of the message as written. `None`
/// when the pattern does not compile.
pub fn resolve_mentions(message: &str, members: &Vec<NamedId>) -> (r: Option<String>)
    ensures
        r is Some <==> pattern_compiles(MENTION_PATTERN@),
        r matches Some(s) ==> s@ == resolve_refs(
            message@,
            '@',
            pattern_captures(MENTION_PATTERN@, message@),
            directory(members@),
            0,
        ),
{
    match find_matches(MENTION_PATTERN, message) {
        Some(caps) => Some(resolve_references(message, '@', &caps, members)),
        None => None,
    }
}

/// Turns each captured `#name` whose name a guild channel has into `<#id>`,
/// leaving unknown names and the rest of the message as written. `None`
/// when the pattern does not compile.
pub fn resolve_channels(message: &str, channels: &Vec<NamedId>) -> (r: Option<String>)
    ensures
        r is Some <==> pattern_compiles(CHANNEL_PATTERN@),
        r matches Some(s) ==> s@ == resolve_refs(
            message@,
            '#',
            pattern_captures(CHANNEL_PATTERN@, message@),
            directory(channels@),
            0,
        ),
{
    match find_matches(CHANNEL_PATTERN, message) {
        Some(caps) => Some(resolve_references(message, '#', &caps, channels)),
        None => None,
    }
}

/// The text of a match's first group, or nothing when the group is absent.
pub open spec fn group_text(m: MatchSpan) -> Seq<char> {
    match m.2 {
        Some(g) => g,
        None => seq![],
    }
}

/// What `:name:` becomes: `<:name:id>` for a guild emoji of that name,
/// `!(!name!)!` otherwise.
pub open spec fn emoji_markup(name: Seq<char>, emojis: Seq<(Seq<char>, u64)>) -> Seq<char> {
    match lookup_id(emojis, name) {
        Some(id) => seq!['<', ':'] + name + seq![':'] + decimal(id as nat) + seq!['>'],
        None => seq!['!', '(', '!'] + name + seq!['!', ')', '!'],
    }
}

/// The text from byte offset `last` on, with each match replaced by the emoji
/// markup for its group.
pub open spec fn rebuild(
    text: Seq<char>,
    ms: Seq<MatchSpan>,
    emojis: Seq<(Seq<char>, u64)>,
    last: int,
) -> Seq<char>
    decreases ms.len(),
{
    if ms.len() == 0 {
        piece(text, last, encode_utf8(text).len() as int)
    } else {
        piece(text, last, ms[0].0 as int) + emoji_markup(group_text(ms[0]), emojis) + rebuild(
            text,
            ms.drop_first(),
            emojis,
            ms[0].1 as int,
        )
    }
}

/// The emoji markup for `name`.
pub fn emoji_text(name: &Vec<char>, emojis: &Vec<NamedId>) -> (r: Vec<char>)
    ensures
        r@ == emoji_markup(name@, directory(emojis@)),
{
    let name_string = string_of(name);
    match find_id(emojis, &name_string) {
        Some(id) => {
            let mut out: Vec<char> = vec!['<', ':'];
            out.extend_from_slice(name.as_slice());
            out.push(':');
            push_decimal(&mut out, id);
            out.push('>');
            assert(out@ =~= seq!['<', ':'] + name@ + seq![':'] + decimal(id as nat) + seq!['>']);
            out
        },
        None => {
            let mut out: Vec<char> = vec!['!', '(', '!'];
            out.extend_from_slice(name.as_slice());
            out.push('!');
            out.push(')');
            out.push('!');
            assert(out@ =~= seq!['!', '(', '!'] + name@ + seq!['!', ')', '!']);
            out
        },
    }
}

/// Replaces each `:name:` match in `text` by its emoji markup, keeping the
/// text between matches.
pub fn modify_encapsulated_text(
    text: &str,
    matches: &Vec<PatternMatch>,
    emojis: &Vec<NamedId>,
) -> (r: String)
    requires
        spans_well_formed(text@, spans_of(matches@)),
    ensures
        r@ == rebuild(text@, spans_of(matches@), directory(emojis@), 0),
{
    let ghost ms = spans_of(matches@);
    let ghost d = directory(emojis@);
    let ghost bytes = encode_utf8(text@);
    let mut out: Vec<char> = Vec::new();
    let mut last: usize = 0;
    let mut i: usize = 0;
    assert(ms.skip(0) =~= ms);
    proof {
        is_char_boundary_start_end_of_seq(bytes);
    }
    while i < matches.len()
        invariant
            i <= matches.len(),
            ms == spans_of(matches@),
            d == directory(emojis@),
            bytes == encode_utf8(text@),
            spans_well_formed(text@, ms),
            last <= bytes.len(),
            is_char_boundary(bytes, last as int),
            forall|k: int| i <= k < ms.len() ==> last <= #[trigger] ms[k].0,
            out@ + rebuild(text@, ms.skip(i as int), d, last as int) == rebuild(text@, ms, d, 0),
        decreases matches.len() - i,
    {
        let ghost t = ms.skip(i as int);
        let ghost before = out@;
        let m = &matches[i];
        proof {
            assert(t.drop_first() =~= ms.skip(i + 1));
            assert(t[0] == ms[i as int]);
            assert(ms[i as int] == span_of(matches@[i as int]));
            assert(valid_range(text@, ms[i as int].0 as int, ms[i as int].1 as int));
        }
        let gap = byte_slice(text, last, m.start);
        out.extend_from_slice(chars_of(gap).as_slice());
        let name: Vec<char> = match &m.group {
            Some(g) => chars_of(g.as_str()),
            None => Vec::new(),
        };
        assert(name@ == group_text(ms[i as int]));
        let markup = emoji_text(&name, emojis);
        out.extend_from_slice(markup.as_slice());
        proof {
            assert(out@ =~= before + (piece(text@, last as int, t[0].0 as int) + emoji_markup(group_text(t[0]), d)));
            assert forall|k: int| i + 1 <= k < ms.len() implies m.end <= #[trigger] ms[k].0 by {
                assert(ms[i as int].1 <= ms[k].0);
            }
        }
        last = m.end;
        i += 1;
    }
    proof {
        assert(ms.skip(i as int).len() == 0);
        is_char_boundary_start_end_of_seq(bytes);
    }
    let ghost before = out@;
    let n = text.as_bytes().len();
    assert(n == bytes.len());
    assert(is_char_boundary(bytes, n as int));
    let tail = byte_slice(text, last, n);
    out.extend_from_slice(chars_of(tail).as_slice());
    assert(out@ =~= before + rebuild(text@, ms.skip(i as int), d, last as int));
    string_of(&out)
}

/// The pattern of an emoji token: text without colons between two colons.
pub const EMOJI_PATTERN: &'static str = ":([^:]+):";

/// The pattern of a span in angle brackets, such as resolved markup.
pub const ANGLE_PATTERN: &'static str = "<[^>]*>";

/// The pattern of a colon-wrapped run of non-space characters.
pub const COLON_PATTERN: &'static str = ":(\\S+):";

/// The pattern of an emoji name that could not be resolved, `!(!name!)!`.
pub const ESCAPED_PATTERN: &'static str = "!\\(!(\\S+?)!\\)!";

/// Replacement template: the first group alone.
pub const GROUP_TEMPLATE: &'static str = "$1";

/// Replacement template: the first group between colons.
pub const COLON_GROUP_TEMPLATE: &'static str = ":$1:";

/// The stand-in for the `i`-th bracketed span, `@placeholder<i>;`. The
/// closing `;` keeps one stand-in from being the beginning of another.
pub open spec fn placeholder(i: nat) -> Seq<char> {
    seq!['@', 'p', 'l', 'a', 'c', 'e', 'h', 'o', 'l', 'd', 'e', 'r'] + decimal(i) + seq![';']
}

/// The texts of the matches, in order.
pub open spec fn bracket_texts(text: Seq<char>, ms: Seq<MatchSpan>) -> Seq<Seq<char>> {
    Seq::new(ms.len(), |k: int| piece(text, ms[k].0 as int, ms[k].1 as int))
}

/// The text after every occurrence of each of the first `n` bracketed texts,
/// taken in order, has been replaced by its placeholder.
pub open spec fn protect(text: Seq<char>, origs: Seq<Seq<char>>, n: nat) -> Seq<char>
    decreases n,
{
    if n == 0 {
        text
    } else {
        replace_all(protect(text, origs, (n - 1) as nat), origs[n - 1], placeholder((n - 1) as nat))
    }
}

/// The text after each of the first `n` placeholders, taken in order, has
/// been replaced by its bracketed text.
pub open spec fn restore(text: Seq<char>, origs: Seq<Seq<char>>, n: nat) -> Seq<char>
    decreases n,
{
    if n == 0 {
        text
    } else {
        replace_all(restore(text, origs, (n - 1) as nat), placeholder((n - 1) as nat), origs[n - 1])
    }
}

/// Colons around words are dropped everywhere but inside angle brackets.
pub open spec fn strip_colons(input: Seq<char>) -> Seq<char> {
    let origs = bracket_texts(input, pattern_captures(ANGLE_PATTERN@, input));
    restore(
        pattern_replace_all(COLON_PATTERN@, protect(input, origs, origs.len()), GROUP_TEMPLATE@),
        origs,
        origs.len(),
    )
}

/// The characters of `@placeholder<i>;`.
fn placeholder_chars(i: usize) -> (r: Vec<char>)
    ensures
        r@ == placeholder(i as nat),
{
    let mut out: Vec<char> = vec!['@', 'p', 'l', 'a', 'c', 'e', 'h', 'o', 'l', 'd', 'e', 'r'];
    push_decimal(&mut out, i as u64);
    out.push(';');
    out
}

/// The texts of a sequence of strings.
pub open spec fn texts_of(v: Seq<String>) -> Seq<Seq<char>> {
    v.map_values(|t: String| t@)
}

/// Hides each bracketed span behind its placeholder: returns the texts of
/// the spans, in order, and the input with every occurrence of each of
/// them, taken in order, replaced by its placeholder.
pub fn protect_brackets(input: &str, brackets: &Vec<PatternMatch>) -> (r: (Vec<String>, String))
    requires
        spans_well_formed(input@, spans_of(brackets@)),
    ensures
        texts_of(r.0@) == bracket_texts(input@, spans_of(brackets@)),
        r.1@ == protect(input@, bracket_texts(input@, spans_of(brackets@)), brackets@.len() as nat),
{
    let ghost ms = spans_of(brackets@);
    let ghost origs = bracket_texts(input@, ms);
    let mut temp = chars_of(input);
    let mut saved: Vec<String> = Vec::new();
    let mut i: usize = 0;
    while i < brackets.len()
        invariant
            i <= brackets.len(),
            ms == spans_of(brackets@),
            spans_well_formed(input@, ms),
            origs == bracket_texts(input@, ms),
            saved@.len() == i,
            forall|k: int| 0 <= k < i ==> #[trigger] saved@[k]@ == origs[k],
            temp@ == protect(input@, origs, i as nat),
        decreases brackets.len() - i,
    {
        let m = &brackets[i];
        assert(ms[i as int] == span_of(brackets@[i as int]));
        assert(valid_range(input@, ms[i as int].0 as int, ms[i as int].1 as int));
        let orig = chars_of(byte_slice(input, m.start, m.end));
        let ph = placeholder_chars(i);
        temp = replace_all_exec(&temp, &orig, &ph);
        saved.push(string_of(&orig));
        i += 1;
    }
    assert(texts_of(saved@) =~= origs);
    (saved, string_of(&temp))
}

/// Puts back, for each placeholder taken in order, the saved text of its
/// bracketed span.
pub fn restore_brackets(text: &str, saved: &Vec<String>) -> (r: String)
    ensures
        r@ == restore(text@, texts_of(saved@), saved@.len() as nat),
{
    let ghost origs = texts_of(saved@);
    let mut fin = chars_of(text);
    let mut k: usize = 0;
    while k < saved.len()
        invariant
            k <= saved.len(),
            origs == texts_of(saved@),
            fin@ == restore(text@, origs, k as nat),
        decreases saved.len() - k,
    {
        let ph = placeholder_chars(k);
        let orig = chars_of(saved[k].as_str());
        assert(orig@ == origs[k as int]);
        fin = replace_all_exec(&fin, &ph, &orig);
        k += 1;
    }
    string_of(&fin)
}

/// Removes the colons around `:word:` tokens outside angle brackets: each
/// bracketed span is first hidden behind a placeholder, the colons are
/// stripped, and the spans are put back. `None` when a pattern does not
/// compile.
pub fn remove_colons_outside_angle_brackets(input: &str) -> (r: Option<String>)
    ensures
        r is Some <==> pattern_compiles(ANGLE_PATTERN@) && pattern_compiles(COLON_PATTERN@),
        r matches Some(s) ==> s@ == strip_colons(input@),
{
    let angle = match find_matches(ANGLE_PATTERN, input) {
        Some(v) => v,
        None => return None,
    };
    let (saved, protected) = protect_brackets(input, &angle);
    let stripped = match replace_pattern(COLON_PATTERN, protected.as_str(), GROUP_TEMPLATE) {
        Some(s) => s,
        None => return None,
    };
    Some(restore_brackets(stripped.as_str(), &saved))
}

/// The whole emoji pass over an outgoing message.
pub open spec fn emoji_pipeline(message: Seq<char>, emojis: Seq<(Seq<char>, u64)>) -> Option<Seq<char>> {
    if !pattern_compiles(EMOJI_PATTERN@) || !pattern_compiles(ANGLE_PATTERN@)
        || !pattern_compiles(COLON_PATTERN@) || !pattern_compiles(ESCAPED_PATTERN@) {
        None
    } else {
        let rebuilt = rebuild(message, pattern_captures(EMOJI_PATTERN@, message), emojis, 0);
        Some(pattern_replace_all(ESCAPED_PATTERN@, strip_colons(rebuilt), COLON_GROUP_TEMPLATE@))
    }
}

/// Resolves `:name:` tokens against the guild's emojis: known names become
/// `<:name:id>`, unknown ones keep their colons, and colons around other
/// words outside markup are dropped. `None` when a pattern does not compile.
pub fn resolve_emojis(message: &str, emojis: &Vec<NamedId>) -> (r: Option<String>)
    ensures
        r matches Some(s) ==> emoji_pipeline(message@, directory(emojis@)) == Some(s@),
        r is None ==> emoji_pipeline(message@, directory(emojis@)) is None,
{
    let matches = match find_matches(EMOJI_PATTERN, message) {
        Some(v) => v,
        None => return None,
    };
    let result = modify_encapsulated_text(message, &matches, emojis);
    let temp = match remove_colons_outside_angle_brackets(result.as_str()) {
        Some(s) => s,
        None => return None,
    };
    replace_pattern(ESCAPED_PATTERN, temp.as_str(), COLON_GROUP_TEMPLATE)
}

} // verus!
