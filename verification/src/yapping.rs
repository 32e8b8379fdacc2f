//! The babbler: a corpus of five-character n-grams learnt from chat input,
//! and a random walk over it that produces a reply.

use vstd::prelude::*;
use vstd::utf8::*;

use crate::text::{chars_of, same_chars, string_of};

verus! {

/// The length of the n-grams the corpus is made of.
pub const NGRAM_NUMBER: usize = 5;

/// The corpus is not extended any more once it holds more bytes than this.
pub const CORPUS_LIMIT: usize = 100_000;

/// Marks the beginning of a message inside the corpus.
pub const BEGIN_MARK: char = 'B';

/// Marks the end of a message inside the corpus.
pub const END_MARK: char = 'E';

/// Separates n-grams inside the corpus.
pub const SEPARATOR: char = 'S';

/// Character sequences of a vector of character vectors.
pub open spec fn deep(v: Seq<Vec<char>>) -> Seq<Seq<char>> {
    v.map_values(|x: Vec<char>| x@)
}

/// What `str::split` yields for a one-character separator: the pieces
/// between separators, empty ones included.
pub open spec fn split_at_sep(s: Seq<char>, sep: char) -> Seq<Seq<char>>
    decreases s.len(),
{
    if s.len() == 0 {
        seq![seq![]]
    } else {
        let r = split_at_sep(s.drop_last(), sep);
        if s.last() == sep {
            r.push(seq![])
        } else {
            r.update(r.len() - 1, r.last().push(s.last()))
        }
    }
}

/// What `join` yields: the pieces with the separator between each two.
pub open spec fn join_with_sep(ps: Seq<Seq<char>>, sep: char) -> Seq<char>
    decreases ps.len(),
{
    if ps.len() == 0 {
        seq![]
    } else if ps.len() == 1 {
        ps[0]
    } else {
        join_with_sep(ps.drop_last(), sep).push(sep) + ps.last()
    }
}

pub proof fn lemma_split_nonempty(s: Seq<char>, sep: char)
    ensures
        split_at_sep(s, sep).len() >= 1,
    decreases s.len(),
{
    if s.len() > 0 {
        lemma_split_nonempty(s.drop_last(), sep);
    }
}

/// Splits `s` at each occurrence of `sep`.
pub fn split_pieces(s: &Vec<char>, sep: char) -> (r: Vec<Vec<char>>)
    ensures
        deep(r@) == split_at_sep(s@, sep),
{
    let mut done: Vec<Vec<char>> = Vec::new();
    let mut cur: Vec<char> = Vec::new();
    let mut i: usize = 0;
    assert(s@.take(0) =~= seq![]);
    while i < s.len()
        invariant
            i <= s.len(),
            deep(done@).push(cur@) == split_at_sep(s@.take(i as int), sep),
        decreases s.len() - i,
    {
        let ghost t = s@.take(i + 1);
        proof {
            assert(t.drop_last() =~= s@.take(i as int));
            assert(t.last() == s@[i as int]);
            lemma_split_nonempty(s@.take(i as int), sep);
        }
        if s[i] == sep {
            let finished = cur;
            done.push(finished);
            cur = Vec::new();
            assert(deep(done@).push(cur@) =~= split_at_sep(s@.take(i as int), sep).push(seq![]));
        } else {
            let ghost before = deep(done@).push(cur@);
            cur.push(s[i]);
            assert(deep(done@).push(cur@) =~= before.update(before.len() - 1, before.last().push(s@[i as int])));
        }
        i += 1;
    }
    assert(s@.take(s.len() as int) =~= s@);
    done.push(cur);
    assert(deep(done@) =~= split_at_sep(s@, sep));
    done
}

/// Joins the pieces with `sep` between each two.
pub fn join_pieces(ps: &Vec<Vec<char>>, sep: char) -> (r: Vec<char>)
    ensures
        r@ == join_with_sep(deep(ps@), sep),
{
    let mut out: Vec<char> = Vec::new();
    let mut i: usize = 0;
    while i < ps.len()
        invariant
            i <= ps.len(),
            out@ == join_with_sep(deep(ps@).take(i as int), sep),
        decreases ps.len() - i,
    {
        let ghost t = deep(ps@).take(i + 1);
        proof {
            assert(t.drop_last() =~= deep(ps@).take(i as int));
            assert(t.last() == ps@[i as int]@);
        }
        if i > 0 {
            out.push(sep);
        } else {
            assert(t =~= seq![ps@[0]@]);
        }
        out.extend_from_slice(ps[i].as_slice());
        i += 1;
    }
    assert(deep(ps@).take(ps.len() as int) =~= deep(ps@));
    out
}

/// The message between the begin and end marks.
pub open spec fn marked(lower: Seq<char>) -> Seq<char> {
    seq![BEGIN_MARK] + lower + seq![END_MARK]
}

/// Every run of five consecutive characters, in order.
pub open spec fn ngrams(chars: Seq<char>) -> Seq<Seq<char>> {
    Seq::new(
        if chars.len() >= 5 { (chars.len() - 4) as nat } else { 0 },
        |k: int| chars.subrange(k, k + 5),
    )
}

/// The corpus with one more n-gram, after a separator unless the corpus is empty.
pub open spec fn add_piece(content: Seq<char>, w: Seq<char>) -> Seq<char> {
    if content.len() == 0 {
        w
    } else {
        content.push(SEPARATOR) + w
    }
}

/// The corpus with the n-grams added in order.
pub open spec fn add_pieces(content: Seq<char>, ws: Seq<Seq<char>>) -> Seq<char>
    decreases ws.len(),
{
    if ws.len() == 0 {
        content
    } else {
        add_pieces(add_piece(content, ws[0]), ws.drop_first())
    }
}

/// What `str::to_lowercase` returns.
pub uninterp spec fn lowercase(s: Seq<char>) -> Seq<char>;

/// The corpus after learning from `text`: nothing is learnt from a text of
/// fewer than four characters, nor once the corpus exceeds its size limit;
/// otherwise the n-grams of the lower-cased, marked text are appended.
pub open spec fn extended_corpus(text: Seq<char>, corpus: Seq<char>) -> Option<Seq<char>> {
    if text.len() < NGRAM_NUMBER - 1 || encode_utf8(corpus).len() > CORPUS_LIMIT {
        None
    } else {
        Some(add_pieces(corpus, ngrams(marked(lowercase(text)))))
    }
}

/// Calls `str::to_lowercase`. Claims that the result is the named lower-case
/// form of the argument; Unicode case mapping is left unstated.
#[verifier::external_body]
fn to_lowercase(s: &str) -> (r: String)
    ensures
        r@ == lowercase(s@),
{
    s.to_lowercase()
}

/// Appends `src[a..b]` to `out`.
pub fn push_range(out: &mut Vec<char>, src: &Vec<char>, a: usize, b: usize)
    requires
        a <= b <= src.len(),
    ensures
        final(out)@ == old(out)@ + src@.subrange(a as int, b as int),
{
    let mut j: usize = a;
    while j < b
        invariant
            a <= j <= b,
            b <= src.len(),
            out@ == old(out)@ + src@.subrange(a as int, j as int),
        decreases b - j,
    {
        out.push(src[j]);
        assert(src@.subrange(a as int, j + 1) == src@.subrange(a as int, j as int).push(src@[j as int]));
        j += 1;
    }
}

/// Appends to the corpus the n-grams of the lower-cased text between the
/// begin and end marks, each after a separator unless the corpus is empty.
pub fn add_ngrams(lower: &str, corpus: &str) -> (r: String)
    ensures
        r@ == add_pieces(corpus@, ngrams(marked(lower@))),
{
    let mut chars: Vec<char> = vec![BEGIN_MARK];
    chars.extend_from_slice(chars_of(lower).as_slice());
    chars.push(END_MARK);
    assert(chars@ =~= marked(lower@));
    let ghost ws = ngrams(chars@);
    let mut out = chars_of(corpus);
    let mut i: usize = NGRAM_NUMBER - 1;
    assert(ws.skip(0) =~= ws);
    while i < chars.len()
        invariant
            4 <= i,
            i <= chars.len() || chars.len() < 5,
            ws == ngrams(chars@),
            chars.len() >= 5 ==> add_pieces(out@, ws.skip(i - 4)) == add_pieces(corpus@, ws),
            chars.len() < 5 ==> out@ == corpus@,
        decreases chars.len() - i,
    {
        let ghost before = out@;
        proof {
            assert(ws.skip(i - 4).drop_first() =~= ws.skip(i - 3));
            assert(ws.skip(i - 4)[0] == chars@.subrange(i - 4, i + 1));
        }
        if out.len() > 0 {
            out.push(SEPARATOR);
        }
        push_range(&mut out, &chars, i - 4, i + 1);
        assert(out@ =~= add_piece(before, chars@.subrange(i - 4, i + 1)));
        i += 1;
    }
    proof {
        if chars.len() >= 5 {
            assert(ws.skip(i - 4).len() == 0);
        } else {
            assert(ws.len() == 0);
        }
    }
    string_of(&out)
}

/// Learns from `text`: the corpus that results, or `None` when nothing is
/// learnt and the corpus stays as it is.
pub fn process(text: &str, corpus: &str) -> (r: Option<String>)
    ensures
        r matches Some(s) ==> extended_corpus(text@, corpus@) == Some(s@),
        r is None ==> extended_corpus(text@, corpus@) is None,
{
    let text_chars = chars_of(text);
    if text_chars.len() < NGRAM_NUMBER - 1 {
        return None;
    }
    let lower = to_lowercase(text);
    if corpus.as_bytes().len() > CORPUS_LIMIT {
        return None;
    }
    Some(add_ngrams(lower.as_str(), corpus))
}

/// The last four characters of the reply (all of it when shorter): the
/// context that the next character must continue.
pub open spec fn context_of(reply: Seq<char>) -> Seq<char> {
    if reply.len() >= 4 {
        reply.skip(reply.len() - 4)
    } else {
        reply
    }
}

/// The first four characters of an n-gram (all of it when shorter).
pub open spec fn head4(t: Seq<char>) -> Seq<char> {
    if t.len() >= 4 {
        t.take(4)
    } else {
        t
    }
}

/// The last characters of the n-grams that begin with `ctx`, in corpus order.
pub open spec fn continuations(pool: Seq<Seq<char>>, ctx: Seq<char>) -> Seq<char>
    decreases pool.len(),
{
    if pool.len() == 0 {
        seq![]
    } else {
        (if head4(pool[0]) == ctx {
            seq![pool[0].last()]
        } else {
            seq![]
        }) + continuations(pool.drop_first(), ctx)
    }
}

/// The pool without any copy of `x`.
pub open spec fn without(pool: Seq<Seq<char>>, x: Seq<char>) -> Seq<Seq<char>>
    decreases pool.len(),
{
    if pool.len() == 0 {
        seq![]
    } else {
        (if pool[0] == x {
            seq![]
        } else {
            seq![pool[0]]
        }) + without(pool.drop_first(), x)
    }
}

pub open spec fn starts_with_begin(t: Seq<char>) -> bool {
    t.len() > 0 && t[0] == BEGIN_MARK
}

pub open spec fn ends_with_end(t: Seq<char>) -> bool {
    t.len() > 0 && t.last() == END_MARK
}

/// The walk from `reply` over `pool` that takes the characters of `picks` as
/// its successive random choices; `None` when `picks` is not a possible
/// sequence of choices, or does not lead exactly to the end of the walk.
/// The walk ends on a reply that ends with the end mark (which is dropped),
/// when no n-gram continues the context, or when the end mark is picked.
/// Each pick removes the n-gram made of the context and the pick.
pub open spec fn walk(reply: Seq<char>, pool: Seq<Seq<char>>, picks: Seq<char>) -> Option<
    (Seq<char>, Seq<Seq<char>>),
>
    decreases picks.len(),
{
    if ends_with_end(reply) {
        if picks.len() == 0 {
            Some((reply.drop_last(), pool))
        } else {
            None
        }
    } else {
        let cands = continuations(pool, context_of(reply));
        if cands.len() == 0 {
            if picks.len() == 0 {
                Some((reply, pool))
            } else {
                None
            }
        } else if picks.len() == 0 || !cands.contains(picks[0]) {
            None
        } else {
            let c = picks[0];
            let rest = without(pool, context_of(reply).push(c));
            if c == END_MARK {
                if picks.len() == 1 {
                    Some((reply, rest))
                } else {
                    None
                }
            } else {
                walk(reply.push(c), rest, picks.drop_first())
            }
        }
    }
}

/// Whether `(reply, rest)` is a possible end of a walk that starts from an
/// n-gram with the begin mark, after all copies of that n-gram are removed.
pub open spec fn possible_babble(
    pieces: Seq<Seq<char>>,
    reply: Seq<char>,
    rest: Seq<Seq<char>>,
) -> bool {
    exists|k: int, picks: Seq<char>|
        0 <= k < pieces.len() && starts_with_begin(pieces[k]) && #[trigger] walk(
            pieces[k],
            without(pieces, pieces[k]),
            picks,
        ) == Some((reply, rest))
}

/// An n-gram that cannot keep a babble going forever: one of at most three
/// characters or of exactly five (a five-character n-gram leaves the pool
/// once the walk uses it), or one that opens with the begin mark and does not
/// close with it (the walk uses it only after a begin mark, and adds no new
/// one).
pub open spec fn piece_fits(p: Seq<char>) -> bool {
    p.len() <= 3 || p.len() == 5 || (starts_with_begin(p) && p.last() != BEGIN_MARK)
}

/// Every n-gram fits, so that every babble over them comes to an end; the
/// corpus that `process` writes consists of such n-grams.
pub open spec fn pieces_well_formed(ps: Seq<Seq<char>>) -> bool {
    forall|k: int| 0 <= k < ps.len() ==> piece_fits(#[trigger] ps[k])
}

/// No n-gram has exactly four characters or more than five.
pub open spec fn short_pieces(ps: Seq<Seq<char>>) -> bool {
    forall|k: int| 0 <= k < ps.len() ==> #[trigger] ps[k].len() <= 5 && ps[k].len() != 4
}

/// Whether any piece begins with the begin mark.
pub open spec fn has_start(ps: Seq<Seq<char>>) -> bool {
    exists|k: int| 0 <= k < ps.len() && starts_with_begin(#[trigger] ps[k])
}

/// Why no reply could be produced.
#[derive(Debug, PartialEq, Eq, Structural)]
pub enum YapError {
    /// No n-gram begins with the begin mark.
    NoStartingTriplet,
    /// Some n-gram could keep a babble going forever (see `piece_fits`).
    MalformedCorpus,
}

/// The reply text made of a finished walk: without the begin mark, followed by ` :3`.
pub open spec fn reply_text(reply: Seq<char>) -> Seq<char> {
    reply.drop_first() + seq![' ', ':', '3']
}

pub proof fn lemma_without_sub(pool: Seq<Seq<char>>, x: Seq<char>)
    ensures
        without(pool, x).len() <= pool.len(),
        pool.contains(x) ==> without(pool, x).len() < pool.len(),
        forall|k: int| 0 <= k < without(pool, x).len() ==> pool.contains(#[trigger] without(pool, x)[k]),
    decreases pool.len(),
{
    if pool.len() > 0 {
        let t = pool.drop_first();
        lemma_without_sub(t, x);
        let w = without(pool, x);
        let wt = without(t, x);
        if pool.contains(x) && pool[0] != x {
            let j = choose|j: int| 0 <= j < pool.len() && pool[j] == x;
            assert(t[j - 1] == x);
        }
        assert forall|k: int| 0 <= k < w.len() implies pool.contains(#[trigger] w[k]) by {
            if pool[0] == x {
                assert(w == wt);
                let j = choose|j: int| 0 <= j < t.len() && t[j] == wt[k];
                assert(pool[j + 1] == w[k]);
            } else if k == 0 {
                assert(pool[0] == w[0]);
            } else {
                assert(w[k] == wt[k - 1]);
                let j = choose|j: int| 0 <= j < t.len() && t[j] == wt[k - 1];
                assert(pool[j + 1] == w[k]);
            }
        }
    }
}

pub proof fn lemma_continuation_source(pool: Seq<Seq<char>>, ctx: Seq<char>, c: char)
    requires
        continuations(pool, ctx).contains(c),
    ensures
        exists|j: int| 0 <= j < pool.len() && head4(#[trigger] pool[j]) == ctx && pool[j].last() == c,
    decreases pool.len(),
{
    let t = pool.drop_first();
    let first: Seq<char> = if head4(pool[0]) == ctx { seq![pool[0].last()] } else { seq![] };
    let k = choose|k: int| 0 <= k < continuations(pool, ctx).len() && continuations(pool, ctx)[k] == c;
    if k < first.len() {
        assert(head4(pool[0]) == ctx && pool[0].last() == c);
    } else {
        assert(continuations(t, ctx)[k - first.len()] == c);
        lemma_continuation_source(t, ctx, c);
        let j = choose|j: int| 0 <= j < t.len() && head4(#[trigger] t[j]) == ctx && t[j].last() == c;
        assert(pool[j + 1] == t[j]);
    }
}

/// How many begin marks `s` holds.
pub open spec fn marks_in(s: Seq<char>) -> nat
    decreases s.len(),
{
    if s.len() == 0 {
        0
    } else {
        (if s.last() == BEGIN_MARK { 1nat } else { 0nat }) + marks_in(s.drop_last())
    }
}

proof fn lemma_marks_first(s: Seq<char>)
    requires
        s.len() > 0,
    ensures
        marks_in(s) == (if s[0] == BEGIN_MARK { 1nat } else { 0nat }) + marks_in(s.drop_first()),
    decreases s.len(),
{
    if s.len() == 1 {
        assert(s.drop_last() =~= Seq::<char>::empty());
        assert(s.drop_first() =~= Seq::<char>::empty());
    } else {
        lemma_marks_first(s.drop_last());
        assert(s.drop_last().drop_first() =~= s.drop_first().drop_last());
        assert(s.drop_first().last() == s.last());
    }
}

/// Picking `c` after a four-character context either removes an n-gram from
/// a well-formed pool, or leaves the pool as large as it was and takes a
/// begin mark out of the context.
pub proof fn lemma_pick_progress(pool: Seq<Seq<char>>, ctx: Seq<char>, c: char)
    requires
        pieces_well_formed(pool),
        ctx.len() == 4,
        continuations(pool, ctx).contains(c),
    ensures
        without(pool, ctx.push(c)).len() < pool.len() || (without(pool, ctx.push(c)).len() == pool.len()
            && ctx[0] == BEGIN_MARK && c != BEGIN_MARK),
{
    lemma_continuation_source(pool, ctx, c);
    let j = choose|j: int| 0 <= j < pool.len() && head4(#[trigger] pool[j]) == ctx && pool[j].last() == c;
    let p = pool[j];
    lemma_without_sub(pool, ctx.push(c));
    assert(p.len() >= 4);
    assert(p[0] == p.take(4)[0]);
    assert(piece_fits(p));
    if p.len() == 5 {
        assert(p =~= ctx.push(c));
        assert(pool.contains(ctx.push(c)));
    }
}

/// No copy of `x` is left.
pub proof fn lemma_without_absent(pool: Seq<Seq<char>>, x: Seq<char>)
    ensures
        !without(pool, x).contains(x),
    decreases pool.len(),
{
    if pool.len() > 0 {
        lemma_without_absent(pool.drop_first(), x);
        let w = without(pool, x);
        let wt = without(pool.drop_first(), x);
        if w.contains(x) {
            let k = choose|k: int| 0 <= k < w.len() && w[k] == x;
            if pool[0] == x {
                assert(w =~= wt);
            } else if k > 0 {
                assert(w[k] == wt[k - 1]);
            }
        }
    }
}

pub proof fn lemma_without_well_formed(pool: Seq<Seq<char>>, x: Seq<char>)
    requires
        pieces_well_formed(pool),
    ensures
        pieces_well_formed(without(pool, x)),
{
    lemma_without_sub(pool, x);
    let w = without(pool, x);
    assert forall|k: int| 0 <= k < w.len() implies piece_fits(#[trigger] w[k]) by {
        assert(pool.contains(w[k]));
        let j = choose|j: int| 0 <= j < pool.len() && pool[j] == w[k];
        assert(piece_fits(pool[j]));
    }
}

pub proof fn lemma_without_short(pool: Seq<Seq<char>>, x: Seq<char>)
    requires
        short_pieces(pool),
    ensures
        short_pieces(without(pool, x)),
{
    lemma_without_sub(pool, x);
    let w = without(pool, x);
    assert forall|k: int| 0 <= k < w.len() implies #[trigger] w[k].len() <= 5 && w[k].len() != 4 by {
        assert(pool.contains(w[k]));
        let j = choose|j: int| 0 <= j < pool.len() && pool[j] == w[k];
        assert(pool[j].len() <= 5);
    }
}

/// A copy of the characters.
pub fn copy_chars(v: &Vec<char>) -> (r: Vec<char>)
    ensures
        r@ == v@,
{
    let mut out: Vec<char> = Vec::new();
    push_range(&mut out, v, 0, v.len());
    assert(v@.subrange(0, v@.len() as int) =~= v@);
    out
}

/// The context that the next character must continue.
pub fn context(reply: &Vec<char>) -> (r: Vec<char>)
    ensures
        r@ == context_of(reply@),
{
    let mut out: Vec<char> = Vec::new();
    if reply.len() >= 4 {
        push_range(&mut out, reply, reply.len() - 4, reply.len());
        assert(reply@.subrange(reply.len() - 4, reply.len() as int) =~= reply@.skip(reply.len() - 4));
    } else {
        push_range(&mut out, reply, 0, reply.len());
        assert(reply@.subrange(0, reply.len() as int) =~= reply@);
    }
    out
}

/// Whether the n-gram begins with the context.
pub fn head_matches(t: &Vec<char>, ctx: &Vec<char>) -> (r: bool)
    ensures
        r == (head4(t@) == ctx@),
{
    let mut head: Vec<char> = Vec::new();
    if t.len() >= 4 {
        push_range(&mut head, t, 0, 4);
        assert(t@.subrange(0, 4) =~= t@.take(4));
    } else {
        push_range(&mut head, t, 0, t.len());
        assert(t@.subrange(0, t.len() as int) =~= t@);
    }
    same_chars(&head, ctx)
}

/// The characters that may follow the context.
pub fn continuation_chars(pool: &Vec<Vec<char>>, ctx: &Vec<char>) -> (r: Vec<char>)
    requires
        ctx@.len() > 0,
    ensures
        r@ == continuations(deep(pool@), ctx@),
{
    let ghost d = deep(pool@);
    let mut out: Vec<char> = Vec::new();
    let mut i: usize = 0;
    assert(d.skip(0) =~= d);
    while i < pool.len()
        invariant
            ctx@.len() > 0,
            i <= pool.len(),
            d == deep(pool@),
            out@ + continuations(d.skip(i as int), ctx@) == continuations(d, ctx@),
        decreases pool.len() - i,
    {
        let ghost t = d.skip(i as int);
        let ghost before = out@;
        proof {
            assert(t.drop_first() =~= d.skip(i + 1));
            assert(t[0] == pool@[i as int]@);
        }
        if head_matches(&pool[i], ctx) {
            let n = pool[i].len();
            out.push(pool[i][n - 1]);
            assert(out@ =~= before + seq![t[0].last()]);
        } else {
            assert(before + (seq![] + continuations(d.skip(i + 1), ctx@)) =~= before + continuations(d.skip(i + 1), ctx@));
        }
        i += 1;
    }
    proof {
        assert(d.skip(i as int).len() == 0);
        assert(out@ + seq![] =~= out@);
    }
    out
}

/// The pool without any copy of `x`.
pub fn remove_piece(pool: &Vec<Vec<char>>, x: &Vec<char>) -> (r: Vec<Vec<char>>)
    ensures
        deep(r@) == without(deep(pool@), x@),
{
    let ghost d = deep(pool@);
    let mut out: Vec<Vec<char>> = Vec::new();
    let mut i: usize = 0;
    assert(d.skip(0) =~= d);
    while i < pool.len()
        invariant
            i <= pool.len(),
            d == deep(pool@),
            deep(out@) + without(d.skip(i as int), x@) == without(d, x@),
        decreases pool.len() - i,
    {
        let ghost t = d.skip(i as int);
        let ghost before = deep(out@);
        proof {
            assert(t.drop_first() =~= d.skip(i + 1));
            assert(t[0] == pool@[i as int]@);
        }
        if !same_chars(&pool[i], x) {
            let kept = copy_chars(&pool[i]);
            out.push(kept);
            assert(deep(out@) =~= before + seq![t[0]]);
        } else {
            assert(before + (seq![] + without(d.skip(i + 1), x@)) =~= before + without(d.skip(i + 1), x@));
        }
        i += 1;
    }
    proof {
        assert(d.skip(i as int).len() == 0);
        assert(deep(out@) + seq![] =~= deep(out@));
    }
    out
}

/// Picks one element with `rand`'s `SliceRandom::choose` and the thread-local
/// generator. Claims: nothing is picked exactly when the slice is empty, and
/// what is picked is an element of the slice. Which element comes back is
/// left unsaid: it depends on the random generator.
#[verifier::external_body]
fn choose_one<T: Copy>(items: &[T]) -> (r: Option<T>)
    ensures
        r is Some <==> items@.len() > 0,
        r matches Some(x) ==> items@.contains(x),
{
    ::rand::seq::SliceRandom::choose(items, &mut ::rand::thread_rng()).copied()
}

pub proof fn lemma_walk_step(reply: Seq<char>, pool: Seq<Seq<char>>, c: char, fut: Seq<char>)
    requires
        !ends_with_end(reply),
        continuations(pool, context_of(reply)).contains(c),
        c != END_MARK,
    ensures
        walk(reply, pool, seq![c] + fut) == walk(
            reply.push(c),
            without(pool, context_of(reply).push(c)),
            fut,
        ),
{
    let p = seq![c] + fut;
    assert(p[0] == c);
    assert(p.drop_first() =~= fut);
}

/// One step of the walk with the character `pick`: the n-gram made of the
/// context and the pick leaves the pool, and unless the pick is the end mark
/// it is added to the reply. Returns whether the pick ends the walk.
pub fn walk_step(reply: &mut Vec<char>, pool: &mut Vec<Vec<char>>, pick: char) -> (done: bool)
    ensures
        done == (pick == END_MARK),
        deep(final(pool)@) == without(deep(old(pool)@), context_of(old(reply)@).push(pick)),
        final(reply)@ == (if pick == END_MARK { old(reply)@ } else { old(reply)@.push(pick) }),
{
    let mut key = context(reply);
    key.push(pick);
    let rest = remove_piece(pool, &key);
    *pool = rest;
    if pick == END_MARK {
        true
    } else {
        reply.push(pick);
        false
    }
}

/// The text of a finished walk: without the begin mark, then ` :3`.
fn finish_text(reply: &Vec<char>) -> (r: String)
    requires
        reply@.len() >= 1,
    ensures
        r@ == reply_text(reply@),
{
    let mut out: Vec<char> = Vec::new();
    push_range(&mut out, reply, 1, reply.len());
    out.push(' ');
    out.push(':');
    out.push('3');
    assert(out@ =~= reply_text(reply@));
    string_of(&out)
}

/// Produces a reply by a random walk over the corpus's n-grams, and the
/// corpus without the n-grams that the walk used. The walk starts from an
/// n-gram that opens with the begin mark, so the corpus must have one; and
/// its n-grams must be well formed, since over others the walk could go on
/// forever.
pub fn generate(corpus: &str) -> (r: (String, String))
    requires
        pieces_well_formed(split_at_sep(corpus@, SEPARATOR)),
        has_start(split_at_sep(corpus@, SEPARATOR)),
    ensures
        exists|reply: Seq<char>, pool: Seq<Seq<char>>|
            possible_babble(split_at_sep(corpus@, SEPARATOR), reply, pool) && r.0@ == reply_text(reply)
                && r.1@ == join_with_sep(pool, SEPARATOR),
{
    let chars = chars_of(corpus);
    let pieces = split_pieces(&chars, SEPARATOR);
    let ghost ps = deep(pieces@);
    let mut starts: Vec<usize> = Vec::new();
    let mut k: usize = 0;
    while k < pieces.len()
        invariant
            k <= pieces.len(),
            ps == deep(pieces@),
            forall|j: int| 0 <= j < starts@.len() ==> #[trigger] starts@[j] < pieces.len() && starts_with_begin(ps[starts@[j] as int]),
            forall|j: int| 0 <= j < k && starts_with_begin(#[trigger] ps[j]) ==> starts@.contains(j as usize),
        decreases pieces.len() - k,
    {
        assert(ps[k as int] == pieces@[k as int]@);
        let ghost old_starts = starts@;
        if pieces[k].len() > 0 && pieces[k][0] == BEGIN_MARK {
            starts.push(k);
            assert(starts@[starts@.len() - 1] == k);
            assert forall|j: int| 0 <= j < k && starts_with_begin(#[trigger] ps[j]) implies starts@.contains(j as usize) by {
                let q = choose|q: int| 0 <= q < old_starts.len() && old_starts[q] == j as usize;
                assert(starts@[q] == j as usize);
            }
        }
        k += 1;
    }
    proof {
        let j = choose|j: int| 0 <= j < ps.len() && starts_with_begin(#[trigger] ps[j]);
        assert(starts@.contains(j as usize));
    }
    let first = choose_one(starts.as_slice()).unwrap();
    let ghost k0: int = first as int;
    proof {
        let j = choose|j: int| 0 <= j < starts@.len() && starts@[j] == first;
        assert(starts_with_begin(ps[starts@[j] as int]));
    }
    let ghost start = ps[k0];
    let ghost pool0 = without(ps, start);
    let mut reply = copy_chars(&pieces[first]);
    let mut pool = remove_piece(&pieces, &reply);
    let ghost mut picks: Seq<char> = seq![];
    proof {
        lemma_without_well_formed(ps, start);
        lemma_without_absent(ps, start);
        assert forall|fut: Seq<char>| #[trigger] walk(reply@, deep(pool@), fut) == walk(start, pool0, picks + fut) by {
            assert(picks + fut =~= fut);
        }
    }
    loop
        invariant
            0 <= k0 < ps.len(),
            ps == split_at_sep(corpus@, SEPARATOR),
            starts_with_begin(ps[k0]),
            start == ps[k0],
            pool0 == without(ps, start),
            reply@.len() >= 1,
            reply@[0] == BEGIN_MARK,
            reply@.len() < 4 ==> reply@ == start && deep(pool@) == pool0,
            !pool0.contains(start),
            pieces_well_formed(deep(pool@)),
            forall|fut: Seq<char>| #[trigger] walk(reply@, deep(pool@), fut) == walk(start, pool0, picks + fut),
        decreases pool@.len(), marks_in(context_of(reply@)),
    {
        let n = reply.len();
        if reply[n - 1] == END_MARK {
            let ghost full = reply@;
            reply.pop();
            let text = finish_text(&reply);
            let rest = string_of(&join_pieces(&pool, SEPARATOR));
            proof {
                assert(ends_with_end(full));
                assert(reply@ =~= full.drop_last());
                assert(walk(full, deep(pool@), seq![]) == Some((reply@, deep(pool@))));
                assert(picks + seq![] =~= picks);
                assert(possible_babble(ps, reply@, deep(pool@)));
            }
            return (text, rest);
        }
        let ctx = context(&reply);
        let cands = continuation_chars(&pool, &ctx);
        let c = match choose_one(cands.as_slice()) {
            Some(c) => c,
            None => {
                let text = finish_text(&reply);
                let rest = string_of(&join_pieces(&pool, SEPARATOR));
                proof {
                    assert(walk(reply@, deep(pool@), seq![]) == Some((reply@, deep(pool@))));
                    assert(picks + seq![] =~= picks);
                    assert(possible_babble(ps, reply@, deep(pool@)));
                }
                return (text, rest);
            },
        };
        let ghost old_reply = reply@;
        let ghost old_pool = deep(pool@);
        proof {
            lemma_without_well_formed(old_pool, ctx@.push(c));
            if old_reply.len() < 4 {
                lemma_continuation_source(old_pool, ctx@, c);
                let j = choose|j: int| 0 <= j < old_pool.len() && head4(#[trigger] old_pool[j]) == ctx@ && old_pool[j].last() == c;
                let p = old_pool[j];
                assert(ctx@ == old_reply);
                assert(p.len() < 4);
                assert(head4(p) == p);
                assert(p == start);
                assert(old_pool.contains(p));
                assert(false);
            }
            lemma_pick_progress(old_pool, ctx@, c);
        }
        let done = walk_step(&mut reply, &mut pool, c);
        if done {
            let text = finish_text(&reply);
            let rest = string_of(&join_pieces(&pool, SEPARATOR));
            proof {
                let p = seq![c];
                assert(p[0] == c);
                assert(walk(old_reply, old_pool, p) == Some((old_reply, deep(pool@))));
                assert(picks + p =~= picks.push(c));
                let all = picks.push(c);
                assert(walk(start, pool0, all) == Some((old_reply, deep(pool@))));
                assert(possible_babble(ps, old_reply, deep(pool@)));
            }
            return (text, rest);
        }
        proof {
            let old_picks = picks;
            picks = picks.push(c);
            assert forall|fut: Seq<char>| #[trigger] walk(reply@, deep(pool@), fut) == walk(start, pool0, picks + fut) by {
                lemma_walk_step(old_reply, old_pool, c, fut);
                assert(old_picks + (seq![c] + fut) =~= picks + fut);
            }
            if pool@.len() == old_pool.len() {
                assert(context_of(reply@) =~= ctx@.drop_first().push(c));
                lemma_marks_first(ctx@);
                assert(ctx@.drop_first().push(c).drop_last() =~= ctx@.drop_first());
            }
        }
    }
}

/// The corpus as learnt, or as it was when nothing was learnt.
pub open spec fn learnt_or(learnt: Option<String>, corpus: Seq<char>) -> Seq<char> {
    match learnt {
        Some(s) => s@,
        None => corpus,
    }
}

/// What a babble over the n-grams `ps` may give: an error exactly for a
/// malformed corpus (one over which the walk could go on forever) or one
/// without a starting n-gram, and otherwise the text of a possible walk with
/// the n-grams that it left.
pub open spec fn babble_result(ps: Seq<Seq<char>>, r: Result<(String, String), YapError>) -> bool {
    &&& (r == Err::<(String, String), YapError>(YapError::MalformedCorpus) <==> !pieces_well_formed(ps))
    &&& (r == Err::<(String, String), YapError>(YapError::NoStartingTriplet) <==> pieces_well_formed(ps) && !has_start(ps))
    &&& (r matches Ok((text, rest)) ==> exists|reply: Seq<char>, pool: Seq<Seq<char>>|
        possible_babble(ps, reply, pool) && text@ == reply_text(reply) && rest@ == join_with_sep(pool, SEPARATOR))
}

/// Whether the n-gram fits.
fn fits(p: &Vec<char>) -> (r: bool)
    ensures
        r == piece_fits(p@),
{
    let n = p.len();
    n <= 3 || n == 5 || (p[0] == BEGIN_MARK && p[n - 1] != BEGIN_MARK)
}

/// Whether the corpus's n-grams are well formed.
pub fn corpus_well_formed(corpus: &str) -> (r: bool)
    ensures
        r == pieces_well_formed(split_at_sep(corpus@, SEPARATOR)),
{
    let chars = chars_of(corpus);
    let pieces = split_pieces(&chars, SEPARATOR);
    let ghost ps = deep(pieces@);
    let mut k: usize = 0;
    while k < pieces.len()
        invariant
            k <= pieces.len(),
            ps == deep(pieces@),
            ps == split_at_sep(corpus@, SEPARATOR),
            forall|j: int| 0 <= j < k ==> piece_fits(#[trigger] ps[j]),
        decreases pieces.len() - k,
    {
        assert(ps[k as int] == pieces@[k as int]@);
        if !fits(&pieces[k]) {
            return false;
        }
        k += 1;
    }
    true
}

/// Whether some n-gram of the corpus opens with the begin mark.
pub fn has_starting_ngram(corpus: &str) -> (r: bool)
    ensures
        r == has_start(split_at_sep(corpus@, SEPARATOR)),
{
    let chars = chars_of(corpus);
    let pieces = split_pieces(&chars, SEPARATOR);
    let ghost ps = deep(pieces@);
    let mut k: usize = 0;
    while k < pieces.len()
        invariant
            k <= pieces.len(),
            ps == deep(pieces@),
            ps == split_at_sep(corpus@, SEPARATOR),
            forall|j: int| 0 <= j < k ==> !starts_with_begin(#[trigger] ps[j]),
        decreases pieces.len() - k,
    {
        assert(ps[k as int] == pieces@[k as int]@);
        if pieces[k].len() > 0 && pieces[k][0] == BEGIN_MARK {
            assert(starts_with_begin(ps[k as int]));
            return true;
        }
        k += 1;
    }
    false
}

/// Babbles over the corpus: the reply and the corpus that remains, or why
/// there is none: a malformed corpus, or one without a starting n-gram.
pub fn babble(corpus: &str) -> (r: Result<(String, String), YapError>)
    ensures
        babble_result(split_at_sep(corpus@, SEPARATOR), r),
{
    if !corpus_well_formed(corpus) {
        Err(YapError::MalformedCorpus)
    } else if !has_starting_ngram(corpus) {
        Err(YapError::NoStartingTriplet)
    } else {
        Ok(generate(corpus))
    }
}

/// Learns from `input`, then babbles over the resulting corpus. Returns the
/// corpus as learnt (`None` when nothing was learnt) and, for the babble,
/// the reply with the corpus that remains, or why there is none.
pub fn yapping(input: &str, corpus: &str) -> (r: (Option<String>, Result<(String, String), YapError>))
    ensures
        r.0 matches Some(s) ==> extended_corpus(input@, corpus@) == Some(s@),
        r.0 is None ==> extended_corpus(input@, corpus@) is None,
        babble_result(split_at_sep(learnt_or(r.0, corpus@), SEPARATOR), r.1),
{
    let learnt = process(input, corpus);
    let result = match &learnt {
        Some(c) => babble(c.as_str()),
        None => babble(corpus),
    };
    (learnt, result)
}

proof fn lemma_join_update_last(ps: Seq<Seq<char>>, sep: char, c: char)
    requires
        ps.len() >= 1,
    ensures
        join_with_sep(ps.update(ps.len() - 1, ps.last().push(c)), sep) == join_with_sep(ps, sep).push(c),
{
    let q = ps.update(ps.len() - 1, ps.last().push(c));
    if ps.len() == 1 {
    } else {
        assert(q.drop_last() =~= ps.drop_last());
        assert(join_with_sep(q, sep) == join_with_sep(ps.drop_last(), sep).push(sep) + ps.last().push(c));
        assert(join_with_sep(ps.drop_last(), sep).push(sep) + ps.last().push(c) =~= (join_with_sep(ps.drop_last(), sep).push(sep) + ps.last()).push(c));
    }
}

/// Splitting the corpus into n-grams and joining them again gives the corpus
/// back: the corpus that a babble leaves is read back as the n-grams it kept.
pub proof fn law_split_join(s: Seq<char>, sep: char)
    ensures
        join_with_sep(split_at_sep(s, sep), sep) == s,
    decreases s.len(),
{
    if s.len() > 0 {
        let p = s.drop_last();
        law_split_join(p, sep);
        lemma_split_nonempty(p, sep);
        let r = split_at_sep(p, sep);
        if s.last() == sep {
            let q = r.push(seq![]);
            assert(q.drop_last() =~= r);
            assert(join_with_sep(q, sep) =~= p.push(sep));
        } else {
            lemma_join_update_last(r, sep, s.last());
        }
        assert(p.push(s.last()) =~= s);
    }
}

/// Every run of five characters in `s` is one of the n-grams.
pub open spec fn windows_in(s: Seq<char>, pieces: Seq<Seq<char>>) -> bool {
    forall|i: int| 0 <= i && i + 5 <= s.len() ==> pieces.contains(#[trigger] s.subrange(i, i + 5))
}

/// Every n-gram of `pool` is one of `pieces`.
pub open spec fn all_in(pool: Seq<Seq<char>>, pieces: Seq<Seq<char>>) -> bool {
    forall|k: int| 0 <= k < pool.len() ==> pieces.contains(#[trigger] pool[k])
}

proof fn lemma_walk_windows(
    reply: Seq<char>,
    pool: Seq<Seq<char>>,
    picks: Seq<char>,
    pieces: Seq<Seq<char>>,
)
    requires
        windows_in(reply, pieces),
        all_in(pool, pieces),
        short_pieces(pool),
        reply.len() >= 1,
        reply[0] == BEGIN_MARK,
    ensures
        walk(reply, pool, picks) matches Some((r, rest)) ==> windows_in(r, pieces) && all_in(rest, pieces)
            && r.len() >= 1 && r[0] == BEGIN_MARK,
    decreases picks.len(),
{
    if ends_with_end(reply) {
        let r = reply.drop_last();
        assert forall|i: int| 0 <= i && i + 5 <= r.len() implies pieces.contains(#[trigger] r.subrange(i, i + 5)) by {
            assert(r.subrange(i, i + 5) =~= reply.subrange(i, i + 5));
        }
    } else {
        let ctx = context_of(reply);
        let cands = continuations(pool, ctx);
        if cands.len() > 0 && picks.len() > 0 && cands.contains(picks[0]) {
            let c = picks[0];
            let key = ctx.push(c);
            let rest = without(pool, key);
            lemma_without_sub(pool, key);
            lemma_without_short(pool, key);
            assert forall|k: int| 0 <= k < rest.len() implies pieces.contains(#[trigger] rest[k]) by {
                assert(pool.contains(rest[k]));
                let j = choose|j: int| 0 <= j < pool.len() && pool[j] == rest[k];
                assert(pieces.contains(pool[j]));
            }
            if c != END_MARK {
                let next = reply.push(c);
                assert forall|i: int| 0 <= i && i + 5 <= next.len() implies pieces.contains(#[trigger] next.subrange(i, i + 5)) by {
                    if i + 5 <= reply.len() {
                        assert(next.subrange(i, i + 5) =~= reply.subrange(i, i + 5));
                    } else {
                        lemma_continuation_source(pool, ctx, c);
                        let j = choose|j: int| 0 <= j < pool.len() && head4(#[trigger] pool[j]) == ctx && pool[j].last() == c;
                        assert(i == reply.len() - 4);
                        assert(pool[j].len() == 5);
                        assert(ctx =~= reply.skip(reply.len() - 4));
                        assert(pool[j].take(4) == ctx);
                        assert forall|q: int| 0 <= q < 5 implies pool[j][q] == next.subrange(i, i + 5)[q] by {
                            if q < 4 {
                                assert(pool[j][q] == pool[j].take(4)[q]);
                                assert(ctx[q] == reply[i + q]);
                            } else {
                                assert(pool[j][q] == pool[j].last());
                            }
                        }
                        assert(pool[j] =~= next.subrange(i, i + 5));
                        assert(pieces.contains(pool[j]));
                    }
                }
                lemma_walk_windows(next, rest, picks.drop_first(), pieces);
            }
        }
    }
}

/// A babble only strings together n-grams of the corpus: every run of five
/// characters of the reply (begin mark included) is an n-gram of the corpus,
/// the reply starts with the begin mark, and every n-gram that remains was
/// in the corpus. Stated for n-grams of at most five characters, none of
/// exactly four: a longer starting n-gram puts its own runs in the reply.
pub proof fn law_babble_follows_corpus(pieces: Seq<Seq<char>>, reply: Seq<char>, rest: Seq<Seq<char>>)
    requires
        short_pieces(pieces),
        possible_babble(pieces, reply, rest),
    ensures
        windows_in(reply, pieces),
        all_in(rest, pieces),
        reply.len() >= 1,
        reply[0] == BEGIN_MARK,
{
    let (k, picks) = choose|k: int, picks: Seq<char>|
        0 <= k < pieces.len() && starts_with_begin(pieces[k]) && #[trigger] walk(
            pieces[k],
            without(pieces, pieces[k]),
            picks,
        ) == Some((reply, rest));
    let start = pieces[k];
    let pool = without(pieces, start);
    lemma_without_sub(pieces, start);
    lemma_without_short(pieces, start);
    assert(start.len() <= 5);
    assert forall|i: int| 0 <= i && i + 5 <= start.len() implies pieces.contains(#[trigger] start.subrange(i, i + 5)) by {
        assert(start.subrange(i, i + 5) =~= start);
    }
    lemma_walk_windows(start, pool, picks, pieces);
}

proof fn lemma_split_sep_free(a: Seq<char>, w: Seq<char>, sep: char)
    requires
        !w.contains(sep),
    ensures
        split_at_sep(a.push(sep) + w, sep) == split_at_sep(a, sep).push(w),
        split_at_sep(w, sep) == seq![w],
    decreases w.len(),
{
    if w.len() == 0 {
        assert(a.push(sep) + w =~= a.push(sep));
        assert((a.push(sep)).drop_last() =~= a);
        assert((a.push(sep)).last() == sep);
        assert(w =~= seq![]);
        assert(split_at_sep(a.push(sep), sep) == split_at_sep(a, sep).push(seq![]));
    } else {
        let wp = w.drop_last();
        assert(!wp.contains(sep)) by {
            if wp.contains(sep) {
                let j = choose|j: int| 0 <= j < wp.len() && wp[j] == sep;
                assert(w[j] == sep);
            }
        }
        assert(w.last() != sep) by {
            assert(w[w.len() - 1] == w.last());
        }
        lemma_split_sep_free(a, wp, sep);
        let full = a.push(sep) + w;
        assert(full.drop_last() =~= a.push(sep) + wp);
        assert(full.last() == w.last());
        assert(wp.push(w.last()) =~= w);
        let r = split_at_sep(a, sep).push(wp);
        assert(split_at_sep(full, sep) == r.update(r.len() - 1, r.last().push(w.last())));
        assert(r.update(r.len() - 1, r.last().push(w.last())) =~= split_at_sep(a, sep).push(w));
        assert(w.drop_last() == wp);
        assert(split_at_sep(w, sep) == seq![wp].update(0, wp.push(w.last())));
        assert(seq![wp].update(0, wp.push(w.last())) =~= seq![w]);
    }
}

proof fn lemma_add_pieces_split(c: Seq<char>, ws: Seq<Seq<char>>)
    requires
        forall|k: int| 0 <= k < ws.len() ==> !(#[trigger] ws[k]).contains(SEPARATOR) && ws[k].len() > 0,
    ensures
        split_at_sep(add_pieces(c, ws), SEPARATOR) == if c.len() == 0 && ws.len() > 0 {
            ws
        } else {
            split_at_sep(c, SEPARATOR) + ws
        },
    decreases ws.len(),
{
    if ws.len() == 0 {
        assert(split_at_sep(c, SEPARATOR) + ws =~= split_at_sep(c, SEPARATOR));
    } else {
        let w = ws[0];
        let rest = ws.drop_first();
        assert forall|k: int| 0 <= k < rest.len() implies !(#[trigger] rest[k]).contains(SEPARATOR) && rest[k].len() > 0 by {
            assert(rest[k] == ws[k + 1]);
        }
        let c2 = add_piece(c, w);
        lemma_split_sep_free(c, w, SEPARATOR);
        lemma_add_pieces_split(c2, rest);
        assert(c2.len() > 0);
        if c.len() == 0 {
            assert(seq![w] + rest =~= ws);
        } else {
            assert(split_at_sep(c, SEPARATOR).push(w) + rest =~= split_at_sep(c, SEPARATOR) + ws);
        }
    }
}

/// What learning does to the n-grams that a babble reads: the n-grams of the
/// lower-cased, marked text follow the corpus's own (and replace the single
/// empty piece of an empty corpus), provided the lower-cased text holds no
/// separator character.
pub proof fn law_learnt_ngrams(text: Seq<char>, corpus: Seq<char>)
    requires
        extended_corpus(text, corpus) is Some,
        !lowercase(text).contains(SEPARATOR),
    ensures
        ({
            let ws = ngrams(marked(lowercase(text)));
            split_at_sep(extended_corpus(text, corpus)->0, SEPARATOR) == if corpus.len() == 0 && ws.len() > 0 {
                ws
            } else {
                split_at_sep(corpus, SEPARATOR) + ws
            }
        }),
{
    let m = marked(lowercase(text));
    let ws = ngrams(m);
    assert forall|k: int| 0 <= k < ws.len() implies !(#[trigger] ws[k]).contains(SEPARATOR) && ws[k].len() > 0 by {
        if ws[k].contains(SEPARATOR) {
            let j = choose|j: int| 0 <= j < ws[k].len() && ws[k][j] == SEPARATOR;
            assert(ws[k][j] == m[k + j]);
            if 0 < k + j < m.len() - 1 {
                assert(m[k + j] == lowercase(text)[k + j - 1]);
            }
        }
    }
    lemma_add_pieces_split(corpus, ws);
}

/// Learning keeps the corpus made of five-character n-grams: when every
/// n-gram of the corpus has five characters, so has every n-gram of the
/// corpus learnt from `text`, and of the n-grams added only the first opens
/// with the begin mark and only the last closes with the end mark. Stated
/// for texts whose lower-cased form holds none of the marks and the
/// separator, and (for an empty corpus) has at least three characters.
pub proof fn law_learnt_segments(text: Seq<char>, corpus: Seq<char>)
    requires
        extended_corpus(text, corpus) is Some,
        !lowercase(text).contains(BEGIN_MARK),
        !lowercase(text).contains(END_MARK),
        !lowercase(text).contains(SEPARATOR),
        corpus.len() > 0 || lowercase(text).len() >= 3,
        corpus.len() > 0 ==> forall|k: int| 0 <= k < split_at_sep(corpus, SEPARATOR).len()
            ==> (#[trigger] split_at_sep(corpus, SEPARATOR)[k]).len() == 5,
    ensures
        forall|k: int| 0 <= k < split_at_sep(extended_corpus(text, corpus)->0, SEPARATOR).len()
            ==> (#[trigger] split_at_sep(extended_corpus(text, corpus)->0, SEPARATOR)[k]).len() == 5,
        ({
            let ws = ngrams(marked(lowercase(text)));
            &&& forall|k: int| 0 <= k < ws.len() ==> (starts_with_begin(#[trigger] ws[k]) <==> k == 0)
            &&& forall|k: int| 0 <= k < ws.len() ==> (ends_with_end(#[trigger] ws[k]) <==> k == ws.len() - 1)
        }),
{
    let lower = lowercase(text);
    let m = marked(lower);
    let ws = ngrams(m);
    law_learnt_ngrams(text, corpus);
    assert forall|i: int| 1 <= i < m.len() - 1 implies m[i] != BEGIN_MARK && m[i] != END_MARK by {
        assert(m[i] == lower[i - 1]);
        if m[i] == BEGIN_MARK || m[i] == END_MARK {
            assert(lower.contains(m[i]));
        }
    }
    assert forall|k: int| 0 <= k < ws.len() implies (starts_with_begin(#[trigger] ws[k]) <==> k == 0) by {
        assert(ws[k][0] == m[k]);
    }
    assert forall|k: int| 0 <= k < ws.len() implies (ends_with_end(#[trigger] ws[k]) <==> k == ws.len() - 1) by {
        assert(ws[k].last() == m[k + 4]);
    }
    let cs = split_at_sep(corpus, SEPARATOR);
    let ns = split_at_sep(extended_corpus(text, corpus)->0, SEPARATOR);
    assert forall|k: int| 0 <= k < ns.len() implies (#[trigger] ns[k]).len() == 5 by {
        if corpus.len() == 0 {
            assert(ns[k] == ws[k]);
        } else if k < cs.len() {
            assert(ns[k] == cs[k]);
        } else {
            assert(ns[k] == ws[k - cs.len()]);
        }
    }
}

/// The four characters of `m` from position `i` on.
pub open spec fn head_at(m: Seq<char>, i: int) -> Seq<char> {
    m.subrange(i, i + 4)
}

/// The runs of four characters that head the n-grams of `m` are all
/// different.
pub open spec fn distinct_heads(m: Seq<char>) -> bool {
    forall|i: int, j: int| 0 <= i < j && j + 5 <= m.len() ==> #[trigger] head_at(m, i) != #[trigger] head_at(m, j)
}

proof fn lemma_cont_none(p: Seq<Seq<char>>, h: Seq<char>)
    requires
        forall|j: int| 0 <= j < p.len() ==> head4(#[trigger] p[j]) != h,
    ensures
        continuations(p, h) == Seq::<char>::empty(),
    decreases p.len(),
{
    if p.len() > 0 {
        let t = p.drop_first();
        assert forall|j: int| 0 <= j < t.len() implies head4(#[trigger] t[j]) != h by {
            assert(t[j] == p[j + 1]);
        }
        lemma_cont_none(t, h);
        assert(head4(p[0]) != h);
        assert(continuations(p, h) =~= Seq::<char>::empty());
    }
}

proof fn lemma_without_none(p: Seq<Seq<char>>, x: Seq<char>)
    requires
        forall|j: int| 0 <= j < p.len() ==> #[trigger] p[j] != x,
    ensures
        without(p, x) == p,
    decreases p.len(),
{
    if p.len() > 0 {
        let t = p.drop_first();
        assert forall|j: int| 0 <= j < t.len() implies #[trigger] t[j] != x by {
            assert(t[j] == p[j + 1]);
        }
        lemma_without_none(t, x);
        assert(p[0] != x);
        assert(seq![p[0]] + t =~= p);
    }
}

/// A walk that has retraced the first `i` characters of a marked text over
/// the n-grams not yet used goes on retracing it to its end.
proof fn lemma_retrace(lower: Seq<char>, i: int, picks: Seq<char>)
    requires
        !lower.contains(BEGIN_MARK),
        !lower.contains(END_MARK),
        distinct_heads(marked(lower)),
        5 <= i <= marked(lower).len(),
    ensures
        walk(marked(lower).take(i), ngrams(marked(lower)).skip(i - 4), picks) matches Some((r, p))
            ==> r == seq![BEGIN_MARK] + lower && p.len() == 0,
    decreases marked(lower).len() - i,
{
    let m = marked(lower);
    let n = m.len() as int;
    let ws = ngrams(m);
    let reply = m.take(i);
    let pool = ws.skip(i - 4);
    assert(m.drop_last() =~= seq![BEGIN_MARK] + lower);
    if i == n {
        assert(reply =~= m);
        assert(ends_with_end(reply));
        assert(pool.len() == 0);
    } else {
        assert(reply.last() == m[i - 1]);
        assert(m[i - 1] == lower[i - 2]);
        assert(m[i - 1] != END_MARK) by {
            if m[i - 1] == END_MARK {
                assert(lower.contains(END_MARK));
            }
        }
        assert(!ends_with_end(reply));
        let a = i - 4;
        let ctx = context_of(reply);
        assert(ctx =~= head_at(m, a));
        assert(ws[a].take(4) =~= ctx);
        assert(pool[0] == ws[a]);
        let tail = pool.drop_first();
        assert forall|j: int| 0 <= j < tail.len() implies head4(#[trigger] tail[j]) != ctx && tail[j] != ws[a] by {
            let q = a + 1 + j;
            assert(tail[j] == ws[q]);
            assert(ws[q].take(4) =~= head_at(m, q));
            assert(head_at(m, a) != head_at(m, q));
        }
        lemma_cont_none(tail, ctx);
        assert(continuations(pool, ctx) =~= seq![m[i]]);
        if picks.len() > 0 && picks[0] == m[i] {
            let c = m[i];
            let key = ctx.push(c);
            assert(key =~= ws[a]);
            assert forall|j: int| 0 <= j < tail.len() implies #[trigger] tail[j] != key by {
                assert(head4(tail[j]) != ctx);
            }
            lemma_without_none(tail, key);
            assert(tail =~= ws.skip(i - 3));
            assert(without(pool, key) =~= ws.skip(i - 3));
            if i == n - 1 {
                assert(c == END_MARK);
                assert(reply =~= m.drop_last());
                assert(ws.skip(i - 3).len() == 0);
            } else {
                assert(c == lower[i - 1]);
                assert(c != END_MARK) by {
                    if c == END_MARK {
                        assert(lower.contains(END_MARK));
                    }
                }
                assert(continuations(pool, ctx).contains(c)) by {
                    assert(continuations(pool, ctx)[0] == c);
                }
                lemma_walk_step(reply, pool, c, picks.drop_first());
                assert(seq![c] + picks.drop_first() =~= picks);
                assert(reply.push(c) =~= m.take(i + 1));
                lemma_retrace(lower, i + 1, picks.drop_first());
            }
        }
    }
}

/// A babble over the n-grams of one marked text retraces it: when the text
/// holds neither mark and the runs of four characters that head its n-grams
/// are all different, every possible babble gives back the text after the
/// begin mark and uses up every n-gram.
pub proof fn law_babble_retraces(lower: Seq<char>, reply: Seq<char>, rest: Seq<Seq<char>>)
    requires
        !lower.contains(BEGIN_MARK),
        !lower.contains(END_MARK),
        distinct_heads(marked(lower)),
        possible_babble(ngrams(marked(lower)), reply, rest),
    ensures
        reply == seq![BEGIN_MARK] + lower,
        rest.len() == 0,
{
    let m = marked(lower);
    let ws = ngrams(m);
    let (k, picks) = choose|k: int, picks: Seq<char>|
        0 <= k < ws.len() && starts_with_begin(ws[k]) && #[trigger] walk(ws[k], without(ws, ws[k]), picks) == Some(
            (reply, rest),
        );
    assert(ws[k][0] == m[k]);
    if k > 0 {
        assert(m[k] == lower[k - 1]);
        assert(lower.contains(BEGIN_MARK));
    }
    assert(ws[0] =~= m.take(5));
    let tail = ws.drop_first();
    assert forall|j: int| 0 <= j < tail.len() implies #[trigger] tail[j] != ws[0] by {
        assert(tail[j] == ws[j + 1]);
        assert(ws[j + 1].take(4) =~= head_at(m, j + 1));
        assert(ws[0].take(4) =~= head_at(m, 0));
        assert(head_at(m, 0) != head_at(m, j + 1));
    }
    lemma_without_none(tail, ws[0]);
    assert(without(ws, ws[0]) =~= ws.skip(1));
    lemma_retrace(lower, 5, picks);
}

/// Learning from a text into an empty corpus and babbling gives the text
/// back: when the lower-cased text holds neither mark nor the separator and
/// the runs of four characters that head its n-grams are all different,
/// every possible babble over the learnt corpus replies with the lower-cased
/// text followed by ` :3` and leaves the corpus empty.
pub proof fn law_learn_then_babble(text: Seq<char>, reply: Seq<char>, rest: Seq<Seq<char>>)
    requires
        extended_corpus(text, seq![]) is Some,
        !lowercase(text).contains(BEGIN_MARK),
        !lowercase(text).contains(END_MARK),
        !lowercase(text).contains(SEPARATOR),
        distinct_heads(marked(lowercase(text))),
        possible_babble(split_at_sep(extended_corpus(text, seq![])->0, SEPARATOR), reply, rest),
    ensures
        reply_text(reply) == lowercase(text) + seq![' ', ':', '3'],
        join_with_sep(rest, SEPARATOR) == Seq::<char>::empty(),
{
    let lower = lowercase(text);
    let ws = ngrams(marked(lower));
    law_learnt_ngrams(text, seq![]);
    let ps = split_at_sep(extended_corpus(text, seq![])->0, SEPARATOR);
    if ws.len() == 0 {
        assert(ps == split_at_sep(seq![], SEPARATOR));
        assert(ps =~= seq![Seq::<char>::empty()]);
        let (k, picks) = choose|k: int, picks: Seq<char>|
            0 <= k < ps.len() && starts_with_begin(ps[k]) && #[trigger] walk(ps[k], without(ps, ps[k]), picks) == Some(
                (reply, rest),
            );
        assert(ps[k].len() == 0);
    }
    assert(ps == ws);
    law_babble_retraces(lower, reply, rest);
    assert(reply.drop_first() =~= lower);
}

/// Learning keeps the corpus fit for babbling: from a well-formed corpus,
/// learning gives a well-formed corpus, and one with a starting n-gram once
/// the lower-cased text has three characters or more. Stated for texts whose
/// lower-cased form holds no separator.
pub proof fn law_learning_keeps_corpus_well_formed(text: Seq<char>, corpus: Seq<char>)
    requires
        extended_corpus(text, corpus) is Some,
        !lowercase(text).contains(SEPARATOR),
        pieces_well_formed(split_at_sep(corpus, SEPARATOR)),
    ensures
        pieces_well_formed(split_at_sep(extended_corpus(text, corpus)->0, SEPARATOR)),
        lowercase(text).len() >= 3 ==> has_start(split_at_sep(extended_corpus(text, corpus)->0, SEPARATOR)),
{
    let lower = lowercase(text);
    let m = marked(lower);
    let ws = ngrams(m);
    law_learnt_ngrams(text, corpus);
    let cs = split_at_sep(corpus, SEPARATOR);
    let ns = split_at_sep(extended_corpus(text, corpus)->0, SEPARATOR);
    assert forall|k: int| 0 <= k < ns.len() implies piece_fits(#[trigger] ns[k]) by {
        if corpus.len() == 0 && ws.len() > 0 {
            assert(ns[k] == ws[k]);
        } else if k < cs.len() {
            assert(ns[k] == cs[k]);
        } else {
            assert(ns[k] == ws[k - cs.len()]);
        }
    }
    if lower.len() >= 3 {
        assert(ws[0][0] == m[0]);
        if corpus.len() == 0 {
            assert(ns[0] == ws[0]);
        } else {
            assert(ns[cs.len() as int] == ws[0]);
        }
    }
}

} // verus!
