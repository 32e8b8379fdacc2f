//! Why hiding bracketed spans behind placeholders and putting them back
//! gives the text back: the proofs work on the text as a sequence of
//! characters and placeholder tokens.

use vstd::prelude::*;

use crate::matching::{pattern_captures, pattern_replace_all};
use crate::patterns::{bracket_texts, placeholder, protect, restore, strip_colons, ANGLE_PATTERN, COLON_PATTERN, GROUP_TEMPLATE};
use crate::text::{contains_seq, decimal, is_digit, lemma_decimal_digits, occurs_at, replace_all};

verus! {


/// A piece of protected text: a character (`Ok`), or the placeholder with
/// an index (`Err`).
pub type Tok = Result<char, nat>;

pub open spec fn tok_text(t: Tok) -> Seq<char> {
    match t {
        Ok(c) => seq![c],
        Err(i) => placeholder(i),
    }
}

/// The text that the tokens spell.
pub open spec fn flat(ts: Seq<Tok>) -> Seq<char>
    decreases ts.len(),
{
    if ts.len() == 0 {
        seq![]
    } else {
        tok_text(ts[0]) + flat(ts.drop_first())
    }
}

/// Characters as tokens.
pub open spec fn char_toks(s: Seq<char>) -> Seq<Tok>
    decreases s.len(),
{
    if s.len() == 0 {
        seq![]
    } else {
        seq![Ok::<char, nat>(s[0])] + char_toks(s.drop_first())
    }
}

/// The characters that every placeholder opens with.
pub open spec fn header() -> Seq<char> {
    seq!['@', 'p', 'l', 'a', 'c', 'e', 'h', 'o', 'l', 'd', 'e', 'r']
}

/// No run of tokens spells the placeholder header in characters.
pub open spec fn no_header(ts: Seq<Tok>) -> bool {
    forall|q: int| 0 <= q <= ts.len() ==> !spells(#[trigger] ts.skip(q), header())
}

/// The tokens begin with the characters of `o`.
pub open spec fn spells(ts: Seq<Tok>, o: Seq<char>) -> bool {
    o.len() <= ts.len() && forall|k: int| 0 <= k < o.len() ==> #[trigger] ts[k] == Ok::<char, nat>(o[k])
}

/// Token-level replacement of the character runs `o` by placeholder `i`.
pub open spec fn rep_tok(ts: Seq<Tok>, o: Seq<char>, i: nat) -> Seq<Tok>
    decreases ts.len(),
{
    if ts.len() == 0 {
        seq![]
    } else if o.len() > 0 && spells(ts, o) {
        seq![Err::<char, nat>(i)] + rep_tok(ts.skip(o.len() as int), o, i)
    } else {
        seq![ts[0]] + rep_tok(ts.drop_first(), o, i)
    }
}

/// Token-level expansion of placeholder `j` into the characters `o`.
pub open spec fn un_tok(ts: Seq<Tok>, j: nat, o: Seq<char>) -> Seq<Tok>
    decreases ts.len(),
{
    if ts.len() == 0 {
        seq![]
    } else {
        (if ts[0] == Err::<char, nat>(j) {
            char_toks(o)
        } else {
            seq![ts[0]]
        }) + un_tok(ts.drop_first(), j, o)
    }
}

/// Every placeholder below `m` expanded into its bracketed text.
pub open spec fn expand_tok(t: Tok, origs: Seq<Seq<char>>, m: nat) -> Seq<Tok> {
    match t {
        Err(i) => if i < m {
            char_toks(origs[i as int])
        } else {
            seq![t]
        },
        Ok(_) => seq![t],
    }
}

pub open spec fn expand(ts: Seq<Tok>, origs: Seq<Seq<char>>, m: nat) -> Seq<Tok>
    decreases ts.len(),
{
    if ts.len() == 0 {
        seq![]
    } else {
        expand_tok(ts[0], origs, m) + expand(ts.drop_first(), origs, m)
    }
}

pub open spec fn rep_all(ts: Seq<Tok>, origs: Seq<Seq<char>>, m: nat) -> Seq<Tok>
    decreases m,
{
    if m == 0 {
        ts
    } else {
        rep_tok(rep_all(ts, origs, (m - 1) as nat), origs[m - 1], (m - 1) as nat)
    }
}

pub open spec fn un_all(ts: Seq<Tok>, origs: Seq<Seq<char>>, m: nat) -> Seq<Tok>
    decreases m,
{
    if m == 0 {
        ts
    } else {
        un_tok(un_all(ts, origs, (m - 1) as nat), (m - 1) as nat, origs[m - 1])
    }
}

/// A bracketed text as the proofs need it: opening with `<`, closing with
/// `>`, and without the placeholder header.
pub open spec fn bracket_like(o: Seq<char>) -> bool {
    o.len() > 0 && o[0] == '<' && o.last() == '>' && !contains_seq(o, header())
}

/// Text that, when the tokens' text begins with it, the tokens spell: text
/// without `@`, or text that closes with `>` and holds no placeholder header.
pub open spec fn prefix_safe(o: Seq<char>) -> bool {
    !o.contains('@') || (o.len() > 0 && o.last() == '>' && !contains_seq(o, header()))
}

proof fn lemma_placeholder(i: nat)
    ensures
        placeholder(i).len() == 13 + decimal(i).len(),
        decimal(i).len() > 0,
        placeholder(i)[0] == '@',
        placeholder(i).take(12) == header(),
        forall|j: int| 1 <= j < placeholder(i).len() ==> #[trigger] placeholder(i)[j] != '@',
        forall|j: int| 0 <= j < placeholder(i).len() ==> #[trigger] placeholder(i)[j] != '<'
            && placeholder(i)[j] != '>',
        placeholder(i)[placeholder(i).len() - 1] == ';',
        forall|q: int| 12 <= q < placeholder(i).len() - 1 ==> #[trigger] placeholder(i)[q] == decimal(i)[q - 12]
            && is_digit(placeholder(i)[q]),
{
    lemma_decimal_digits(i);
    lemma_header();
    let p = placeholder(i);
    let d = decimal(i);
    assert(p.take(12) =~= header());
    assert forall|q: int| 12 <= q < p.len() - 1 implies #[trigger] p[q] == d[q - 12] && is_digit(p[q]) by {
        assert(is_digit(d[q - 12]));
    }
    assert forall|j: int| 0 <= j < p.len() implies #[trigger] p[j] != '<' && p[j] != '>' by {
        if j < 12 {
            assert(p[j] == header()[j]);
        } else if j < p.len() - 1 {
            assert(is_digit(d[j - 12]));
        }
    }
    assert forall|j: int| 1 <= j < p.len() implies #[trigger] p[j] != '@' by {
        if j < 12 {
            assert(p[j] == header()[j]);
        } else if j < p.len() - 1 {
            assert(is_digit(d[j - 12]));
        }
    }
}

proof fn lemma_header()
    ensures
        header().len() == 12,
        header()[0] == '@',
        forall|k: int| 1 <= k < 12 ==> #[trigger] header()[k] != '@',
        forall|k: int| 0 <= k < 12 ==> #[trigger] header()[k] != '<' && header()[k] != '>',
        !header().drop_first().contains('@'),
{
    let h = header();
    assert(h[1] == 'p' && h[2] == 'l' && h[3] == 'a' && h[4] == 'c' && h[5] == 'e' && h[6] == 'h');
    assert(h[7] == 'o' && h[8] == 'l' && h[9] == 'd' && h[10] == 'e' && h[11] == 'r');
    let w = h.drop_first();
    assert forall|k: int| 0 <= k < w.len() implies w[k] != '@' by {
        assert(w[k] == h[k + 1]);
    }
}

/// Two different placeholders differ at a position that both of them have,
/// so neither begins another: a shorter index ends with `;` where the longer
/// one still has a digit, and indices of one length differ in a digit.
proof fn lemma_placeholder_mismatch(i: nat, j: nat) -> (q: int)
    requires
        i != j,
    ensures
        0 <= q < placeholder(i).len(),
        q < placeholder(j).len(),
        placeholder(i)[q] != placeholder(j)[q],
{
    lemma_placeholder(i);
    lemma_placeholder(j);
    lemma_decimal_digits(i);
    lemma_decimal_digits(j);
    let di = decimal(i);
    let dj = decimal(j);
    let pi = placeholder(i);
    let pj = placeholder(j);
    if di.len() < dj.len() {
        let q: int = 12 + di.len() as int;
        assert(pj[q] == dj[q - 12]);
        assert(is_digit(pj[q]));
        q
    } else if di.len() > dj.len() {
        let q: int = 12 + dj.len() as int;
        assert(pi[q] == di[q - 12]);
        assert(is_digit(pi[q]));
        q
    } else {
        if forall|k: int| 0 <= k < di.len() ==> di[k] == dj[k] {
            assert(di =~= dj);
            assert(false);
        }
        let k = choose|k: int| 0 <= k < di.len() && di[k] != dj[k];
        let q = 12 + k;
        assert(pi[q] == di[k]);
        assert(pj[q] == dj[k]);
        q
    }
}

proof fn lemma_flat_single(t: Tok)
    ensures
        flat(seq![t]) == tok_text(t),
{
    let s = seq![t];
    assert(s.drop_first() =~= Seq::<Tok>::empty());
    assert(flat(s.drop_first()) == Seq::<char>::empty());
    assert(tok_text(t) + Seq::<char>::empty() =~= tok_text(t));
}

proof fn lemma_flat_concat(a: Seq<Tok>, b: Seq<Tok>)
    ensures
        flat(a + b) == flat(a) + flat(b),
    decreases a.len(),
{
    if a.len() == 0 {
        assert(a + b =~= b);
    } else {
        lemma_flat_concat(a.drop_first(), b);
        assert((a + b).drop_first() =~= a.drop_first() + b);
        assert((a + b)[0] == a[0]);
        assert(tok_text(a[0]) + (flat(a.drop_first()) + flat(b)) =~= (tok_text(a[0]) + flat(a.drop_first())) + flat(b));
    }
}

proof fn lemma_char_toks(s: Seq<char>)
    ensures
        char_toks(s).len() == s.len(),
        forall|k: int| 0 <= k < s.len() ==> #[trigger] char_toks(s)[k] == Ok::<char, nat>(s[k]),
    decreases s.len(),
{
    if s.len() > 0 {
        lemma_char_toks(s.drop_first());
        let cs = char_toks(s);
        assert forall|k: int| 0 <= k < s.len() implies #[trigger] cs[k] == Ok::<char, nat>(s[k]) by {
            if k > 0 {
                assert(cs[k] == char_toks(s.drop_first())[k - 1]);
            }
        }
    }
}

proof fn lemma_flat_chars(s: Seq<char>)
    ensures
        flat(char_toks(s)) == s,
    decreases s.len(),
{
    if s.len() > 0 {
        lemma_flat_chars(s.drop_first());
        let cs = char_toks(s);
        assert(cs[0] == Ok::<char, nat>(s[0]));
        assert(cs.drop_first() =~= char_toks(s.drop_first()));
        assert(seq![s[0]] + s.drop_first() =~= s);
    }
}

proof fn lemma_flat_split(ts: Seq<Tok>, m: int)
    requires
        0 <= m <= ts.len(),
    ensures
        flat(ts) == flat(ts.take(m)) + flat(ts.skip(m)),
{
    assert(ts =~= ts.take(m) + ts.skip(m));
    lemma_flat_concat(ts.take(m), ts.skip(m));
}

/// Replacing in a text whose first characters cannot begin a match.
proof fn lemma_skip(a: Seq<char>, f: Seq<char>, pat: Seq<char>, rep: Seq<char>)
    requires
        pat.len() > 0,
        forall|j: int| 0 <= j < a.len() ==> a[j] != pat[0],
    ensures
        replace_all(a + f, pat, rep) == a + replace_all(f, pat, rep),
    decreases a.len(),
{
    if a.len() > 0 {
        let s = a + f;
        lemma_skip(a.drop_first(), f, pat, rep);
        assert(s.drop_first() =~= a.drop_first() + f);
        if s.len() >= pat.len() {
            assert(s.take(pat.len() as int)[0] == a[0]);
            assert(s.take(pat.len() as int) != pat);
            assert(seq![s[0]] + (a.drop_first() + replace_all(f, pat, rep)) =~= a + replace_all(f, pat, rep));
        } else {
            assert(f.len() < pat.len());
            assert(replace_all(f, pat, rep) == f);
        }
    } else {
        assert(a + f =~= f);
    }
}

proof fn lemma_no_header_skip(ts: Seq<Tok>, m: int)
    requires
        no_header(ts),
        0 <= m <= ts.len(),
    ensures
        no_header(ts.skip(m)),
{
    assert forall|q: int| 0 <= q <= ts.skip(m).len() implies !spells(#[trigger] ts.skip(m).skip(q), header()) by {
        assert(ts.skip(m).skip(q) =~= ts.skip(m + q));
    }
}

/// Tokens without a header do not spell one at their front.
proof fn lemma_front_header(ts: Seq<Tok>)
    requires
        no_header(ts),
    ensures
        !spells(ts, header()),
{
    assert(ts.skip(0) =~= ts);
}

proof fn lemma_chars_no_header(text: Seq<char>)
    requires
        !contains_seq(text, header()),
    ensures
        no_header(char_toks(text)),
{
    let ts = char_toks(text);
    lemma_char_toks(text);
    lemma_header();
    assert forall|q: int| 0 <= q <= ts.len() implies !spells(#[trigger] ts.skip(q), header()) by {
        if spells(ts.skip(q), header()) {
            assert forall|k: int| 0 <= k < 12 implies text.subrange(q, q + 12)[k] == header()[k] by {
                assert(ts.skip(q)[k] == Ok::<char, nat>(header()[k]));
                assert(ts[q + k] == Ok::<char, nat>(text[q + k]));
            }
            assert(text.subrange(q, q + 12) =~= header());
            assert(occurs_at(text, header(), q));
        }
    }
}

proof fn lemma_contains_drop_first(o: Seq<char>, pat: Seq<char>)
    requires
        o.len() > 0,
        contains_seq(o.drop_first(), pat),
    ensures
        contains_seq(o, pat),
{
    let i = choose|i: int| occurs_at(o.drop_first(), pat, i);
    assert(o.subrange(i + 1, i + 1 + pat.len()) =~= o.drop_first().subrange(i, i + pat.len()));
    assert(occurs_at(o, pat, i + 1));
}

/// When the text that the tokens spell begins with `o`, the tokens begin
/// with the characters of `o`: a placeholder token inside would put `@`, a
/// whole header, or a text ending in a placeholder character into `o`.
proof fn lemma_prefix_spells(ts: Seq<Tok>, o: Seq<char>)
    requires
        prefix_safe(o),
        o.len() <= flat(ts).len(),
        flat(ts).take(o.len() as int) == o,
    ensures
        spells(ts, o),
    decreases o.len(),
{
    if o.len() > 0 {
        assert(ts.len() > 0);
        let t0 = ts[0];
        let rest = ts.drop_first();
        assert(flat(ts) == tok_text(t0) + flat(rest));
        assert(flat(ts)[0] == o[0]);
        match t0 {
            Err(i) => {
                lemma_placeholder(i);
                let p = placeholder(i);
                assert(o[0] == '@');
                assert(o.contains('@'));
                if o.len() >= 12 {
                    assert(o.subrange(0, 12) =~= p.take(12));
                    assert(occurs_at(o, header(), 0));
                } else {
                    assert(o.last() == p[o.len() - 1]);
                }
            },
            Ok(c) => {
                let od = o.drop_first();
                assert(prefix_safe(od)) by {
                    if o.contains('@') {
                        if contains_seq(od, header()) {
                            lemma_contains_drop_first(o, header());
                        }
                        if od.len() > 0 {
                            assert(od.last() == o.last());
                        }
                    } else if od.contains('@') {
                        let j = choose|j: int| 0 <= j < od.len() && od[j] == '@';
                        assert(o[j + 1] == '@');
                    }
                }
                assert(flat(rest).take(od.len() as int) =~= flat(ts).take(o.len() as int).drop_first());
                lemma_prefix_spells(rest, od);
                assert forall|k: int| 0 <= k < o.len() implies #[trigger] ts[k] == Ok::<char, nat>(o[k]) by {
                    if k > 0 {
                        assert(rest[k - 1] == Ok::<char, nat>(od[k - 1]));
                    }
                }
            },
        }
    }
}

proof fn lemma_spelled_text(ts: Seq<Tok>, o: Seq<char>)
    requires
        spells(ts, o),
    ensures
        flat(ts.take(o.len() as int)) == o,
{
    lemma_char_toks(o);
    assert forall|k: int| 0 <= k < o.len() implies ts.take(o.len() as int)[k] == char_toks(o)[k] by {
        assert(ts[k] == Ok::<char, nat>(o[k]));
    }
    assert(ts.take(o.len() as int) =~= char_toks(o));
    lemma_flat_chars(o);
}

/// Token-level replacement matches `str::replace` on the text.
proof fn lemma_rep(ts: Seq<Tok>, o: Seq<char>, i: nat)
    requires
        bracket_like(o),
    ensures
        replace_all(flat(ts), o, placeholder(i)) == flat(rep_tok(ts, o, i)),
    decreases ts.len(),
{
    let p = placeholder(i);
    lemma_placeholder(i);
    if ts.len() == 0 {
        assert(flat(ts).len() == 0);
    } else if spells(ts, o) {
        let rest = ts.skip(o.len() as int);
        lemma_rep(rest, o, i);
        lemma_flat_split(ts, o.len() as int);
        lemma_spelled_text(ts, o);
        let f = flat(ts);
        assert(f.take(o.len() as int) =~= o);
        assert(f.skip(o.len() as int) =~= flat(rest));
        lemma_flat_concat(seq![Err::<char, nat>(i)], rep_tok(rest, o, i));
        lemma_flat_single(Err::<char, nat>(i));
    } else {
        let t0 = ts[0];
        let rest = ts.drop_first();
        assert(rest == ts.skip(1));
        lemma_rep(rest, o, i);
        let f = flat(ts);
        assert(f == tok_text(t0) + flat(rest));
        lemma_flat_concat(seq![t0], rep_tok(rest, o, i));
        lemma_flat_single(t0);
        match t0 {
            Err(q) => {
                lemma_placeholder(q);
                assert forall|j: int| 0 <= j < tok_text(t0).len() implies tok_text(t0)[j] != o[0] by {}
                lemma_skip(tok_text(t0), flat(rest), o, p);
            },
            Ok(c) => {
                if f.len() >= o.len() && f.take(o.len() as int) == o {
                    lemma_prefix_spells(ts, o);
                }
                if f.len() >= o.len() {
                    assert(f.drop_first() =~= flat(rest));
                    assert(seq![c] + flat(rest) =~= f);
                } else {
                    assert(flat(rest).len() < o.len());
                }
            },
        }
    }
}

/// Tokens that the replacement begins with characters were spelled before.
proof fn lemma_rep_prefix(ts: Seq<Tok>, o: Seq<char>, i: nat, w: Seq<char>)
    requires
        spells(rep_tok(ts, o, i), w),
    ensures
        spells(ts, w),
    decreases ts.len(),
{
    if w.len() > 0 {
        let r = rep_tok(ts, o, i);
        assert(ts.len() > 0);
        if o.len() > 0 && spells(ts, o) {
            assert(r[0] == Err::<char, nat>(i));
            assert(r[0] == Ok::<char, nat>(w[0]));
        } else {
            let rest = ts.drop_first();
            let rr = rep_tok(rest, o, i);
            assert(r == seq![ts[0]] + rr);
            let wd = w.drop_first();
            assert forall|k: int| 0 <= k < wd.len() implies #[trigger] rr[k] == Ok::<char, nat>(wd[k]) by {
                assert(r[k + 1] == rr[k]);
                assert(r[k + 1] == Ok::<char, nat>(w[k + 1]));
            }
            lemma_rep_prefix(rest, o, i, wd);
            assert forall|k: int| 0 <= k < w.len() implies #[trigger] ts[k] == Ok::<char, nat>(w[k]) by {
                if k > 0 {
                    assert(rest[k - 1] == Ok::<char, nat>(wd[k - 1]));
                } else {
                    assert(r[0] == ts[0]);
                }
            }
        }
    }
}

/// Replacing character runs by a placeholder spells no new header.
proof fn lemma_rep_no_header(ts: Seq<Tok>, o: Seq<char>, i: nat)
    requires
        no_header(ts),
    ensures
        no_header(rep_tok(ts, o, i)),
    decreases ts.len(),
{
    lemma_header();
    let r = rep_tok(ts, o, i);
    if ts.len() > 0 {
        let (rest, head): (Seq<Tok>, Tok) = if o.len() > 0 && spells(ts, o) {
            (ts.skip(o.len() as int), Err::<char, nat>(i))
        } else {
            (ts.drop_first(), ts[0])
        };
        assert(rest == ts.skip(ts.len() - rest.len()));
        lemma_no_header_skip(ts, ts.len() - rest.len());
        lemma_rep_no_header(rest, o, i);
        let rr = rep_tok(rest, o, i);
        assert(r == seq![head] + rr);
        assert forall|q: int| 0 <= q <= r.len() implies !spells(#[trigger] r.skip(q), header()) by {
            if q > 0 {
                assert(r.skip(q) =~= rr.skip(q - 1));
            } else if spells(r.skip(q), header()) {
                assert(r.skip(0) =~= r);
                assert(r[0] == Ok::<char, nat>('@'));
                let w = header().drop_first();
                assert forall|k: int| 0 <= k < w.len() implies #[trigger] rr[k] == Ok::<char, nat>(w[k]) by {
                    assert(r[k + 1] == rr[k]);
                    assert(r[k + 1] == Ok::<char, nat>(header()[k + 1]));
                }
                lemma_rep_prefix(rest, o, i, w);
                assert(head == ts[0]);
                assert(rest == ts.drop_first());
                assert forall|k: int| 0 <= k < 12 implies #[trigger] ts[k] == Ok::<char, nat>(header()[k]) by {
                    if k > 0 {
                        assert(rest[k - 1] == Ok::<char, nat>(w[k - 1]));
                    }
                }
                lemma_front_header(ts);
            }
        }
    }
}

/// Tokens that the expansion begins with characters other than `<` were
/// spelled before.
proof fn lemma_un_prefix(ts: Seq<Tok>, j: nat, o: Seq<char>, w: Seq<char>)
    requires
        o.len() > 0,
        o[0] == '<',
        !w.contains('<'),
        spells(un_tok(ts, j, o), w),
    ensures
        spells(ts, w),
    decreases ts.len(),
{
    if w.len() > 0 {
        let u = un_tok(ts, j, o);
        assert(ts.len() > 0);
        let rest = ts.drop_first();
        let ur = un_tok(rest, j, o);
        lemma_char_toks(o);
        if ts[0] == Err::<char, nat>(j) {
            assert(u == char_toks(o) + ur);
            assert(u[0] == Ok::<char, nat>('<'));
            assert(w[0] == '<');
            assert(w.contains('<'));
        } else {
            assert(u == seq![ts[0]] + ur);
            let wd = w.drop_first();
            assert(!wd.contains('<')) by {
                if wd.contains('<') {
                    let k = choose|k: int| 0 <= k < wd.len() && wd[k] == '<';
                    assert(w[k + 1] == '<');
                }
            }
            assert forall|k: int| 0 <= k < wd.len() implies #[trigger] ur[k] == Ok::<char, nat>(wd[k]) by {
                assert(u[k + 1] == ur[k]);
                assert(u[k + 1] == Ok::<char, nat>(w[k + 1]));
            }
            lemma_un_prefix(rest, j, o, wd);
            assert forall|k: int| 0 <= k < w.len() implies #[trigger] ts[k] == Ok::<char, nat>(w[k]) by {
                if k > 0 {
                    assert(rest[k - 1] == Ok::<char, nat>(wd[k - 1]));
                } else {
                    assert(u[0] == ts[0]);
                }
            }
        }
    }
}

/// Expanding a placeholder into a bracketed text spells no new header.
proof fn lemma_un_no_header(ts: Seq<Tok>, j: nat, o: Seq<char>)
    requires
        no_header(ts),
        bracket_like(o),
    ensures
        no_header(un_tok(ts, j, o)),
    decreases ts.len(),
{
    lemma_header();
    let u = un_tok(ts, j, o);
    if ts.len() > 0 {
        let rest = ts.drop_first();
        assert(rest == ts.skip(1));
        lemma_no_header_skip(ts, 1);
        lemma_un_no_header(rest, j, o);
        let ur = un_tok(rest, j, o);
        let head: Seq<Tok> = if ts[0] == Err::<char, nat>(j) { char_toks(o) } else { seq![ts[0]] };
        assert(u == head + ur);
        lemma_char_toks(o);
        let w = header().drop_first();
        assert(!w.contains('<')) by {
            if w.contains('<') {
                let k = choose|k: int| 0 <= k < w.len() && w[k] == '<';
                assert(header()[k + 1] == '<');
            }
        }
        assert forall|q: int| 0 <= q <= u.len() implies !spells(#[trigger] u.skip(q), header()) by {
            if q >= head.len() {
                assert(u.skip(q) =~= ur.skip(q - head.len()));
            } else if spells(u.skip(q), header()) {
                if ts[0] == Err::<char, nat>(j) {
                    if q + 12 <= o.len() {
                        assert forall|k: int| 0 <= k < 12 implies o.subrange(q, q + 12)[k] == header()[k] by {
                            assert(u.skip(q)[k] == Ok::<char, nat>(header()[k]));
                            assert(u[q + k] == head[q + k]);
                        }
                        assert(o.subrange(q, q + 12) =~= header());
                        assert(occurs_at(o, header(), q));
                    } else {
                        let k = o.len() - 1 - q;
                        assert(u.skip(q)[k] == u[o.len() - 1]);
                        assert(u[o.len() - 1] == head[o.len() - 1]);
                        assert(head[o.len() - 1] == Ok::<char, nat>(o.last()));
                        assert(u.skip(q)[k] == Ok::<char, nat>(header()[k]));
                    }
                } else {
                    assert(q == 0);
                    assert(u.skip(0) =~= u);
                    assert(u[0] == ts[0]);
                    assert(ts[0] == Ok::<char, nat>('@'));
                    assert forall|k: int| 0 <= k < w.len() implies #[trigger] ur[k] == Ok::<char, nat>(w[k]) by {
                        assert(u[k + 1] == ur[k]);
                        assert(u[k + 1] == Ok::<char, nat>(header()[k + 1]));
                    }
                    lemma_un_prefix(rest, j, o, w);
                    assert forall|k: int| 0 <= k < 12 implies #[trigger] ts[k] == Ok::<char, nat>(header()[k]) by {
                        if k > 0 {
                            assert(rest[k - 1] == Ok::<char, nat>(w[k - 1]));
                        }
                    }
                    lemma_front_header(ts);
                }
            }
        }
    }
}

/// Token-level expansion matches replacing placeholder `j` by `o` in the
/// text: no placeholder can begin at a character, since that would spell a
/// header.
proof fn lemma_un(ts: Seq<Tok>, j: nat, o: Seq<char>)
    requires
        no_header(ts),
    ensures
        replace_all(flat(ts), placeholder(j), o) == flat(un_tok(ts, j, o)),
    decreases ts.len(),
{
    let p = placeholder(j);
    lemma_placeholder(j);
    lemma_header();
    if ts.len() == 0 {
        assert(flat(ts).len() == 0);
    } else {
        let t0 = ts[0];
        let rest = ts.drop_first();
        assert(rest == ts.skip(1));
        lemma_no_header_skip(ts, 1);
        lemma_un(rest, j, o);
        let f = flat(ts);
        let fr = flat(rest);
        assert(f == tok_text(t0) + fr);
        let u = un_tok(ts, j, o);
        let head: Seq<Tok> = if t0 == Err::<char, nat>(j) { char_toks(o) } else { seq![t0] };
        assert(u == head + un_tok(rest, j, o));
        lemma_flat_concat(head, un_tok(rest, j, o));
        lemma_char_toks(o);
        match t0 {
            Ok(c) => {
                lemma_flat_single(t0);
                if c != '@' {
                    lemma_skip(seq![c], fr, p, o);
                } else if f.len() >= p.len() {
                    if f.take(p.len() as int) == p {
                        let w = header().drop_first();
                        assert forall|k: int| 0 <= k < 11 implies fr.take(11)[k] == w[k] by {
                            assert(fr[k] == f[k + 1]);
                            assert(f[k + 1] == p[k + 1]);
                            assert(p[k + 1] == p.take(12)[k + 1]);
                        }
                        assert(fr.take(11) =~= w);
                        lemma_prefix_spells(rest, w);
                        assert forall|k: int| 0 <= k < 12 implies #[trigger] ts[k] == Ok::<char, nat>(header()[k]) by {
                            if k > 0 {
                                assert(rest[k - 1] == Ok::<char, nat>(w[k - 1]));
                            }
                        }
                        lemma_front_header(ts);
                    }
                    assert(f.drop_first() =~= fr);
                    assert(seq![c] + replace_all(fr, p, o) =~= seq![f[0]] + replace_all(f.drop_first(), p, o));
                } else {
                    assert(fr.len() < p.len());
                    assert(replace_all(fr, p, o) == fr);
                }
            },
            Err(i) => {
                lemma_placeholder(i);
                if i == j {
                    lemma_flat_chars(o);
                    assert(f.take(p.len() as int) =~= p);
                    assert(f.skip(p.len() as int) =~= fr);
                } else {
                    lemma_flat_single(t0);
                    let pi = placeholder(i);
                    let q = lemma_placeholder_mismatch(i, j);
                    if f.len() >= p.len() {
                        assert(f.take(p.len() as int)[q] == pi[q]);
                        assert(f.take(p.len() as int) != p);
                    } else {
                        assert(fr.len() < p.len());
                        assert(replace_all(fr, p, o) == fr);
                    }
                    assert(f.drop_first() =~= pi.drop_first() + fr);
                    assert forall|q: int| 0 <= q < pi.drop_first().len() implies pi.drop_first()[q] != p[0] by {
                        assert(pi.drop_first()[q] == pi[q + 1]);
                    }
                    lemma_skip(pi.drop_first(), fr, p, o);
                    assert(seq![f[0]] + (pi.drop_first() + replace_all(fr, p, o)) =~= pi + replace_all(fr, p, o));
                }
            },
        }
    }
}

proof fn lemma_rep_all(ts: Seq<Tok>, origs: Seq<Seq<char>>, m: nat)
    requires
        no_header(ts),
        m <= origs.len(),
        forall|k: int| 0 <= k < m ==> bracket_like(#[trigger] origs[k]),
    ensures
        protect(flat(ts), origs, m) == flat(rep_all(ts, origs, m)),
        no_header(rep_all(ts, origs, m)),
    decreases m,
{
    if m > 0 {
        lemma_rep_all(ts, origs, (m - 1) as nat);
        assert(bracket_like(origs[m - 1]));
        lemma_rep(rep_all(ts, origs, (m - 1) as nat), origs[m - 1], (m - 1) as nat);
        lemma_rep_no_header(rep_all(ts, origs, (m - 1) as nat), origs[m - 1], (m - 1) as nat);
    }
}

proof fn lemma_un_all(ts: Seq<Tok>, origs: Seq<Seq<char>>, m: nat)
    requires
        no_header(ts),
        m <= origs.len(),
        forall|k: int| 0 <= k < m ==> bracket_like(#[trigger] origs[k]),
    ensures
        restore(flat(ts), origs, m) == flat(un_all(ts, origs, m)),
        no_header(un_all(ts, origs, m)),
    decreases m,
{
    if m > 0 {
        lemma_un_all(ts, origs, (m - 1) as nat);
        assert(bracket_like(origs[m - 1]));
        lemma_un(un_all(ts, origs, (m - 1) as nat), (m - 1) as nat, origs[m - 1]);
        lemma_un_no_header(un_all(ts, origs, (m - 1) as nat), (m - 1) as nat, origs[m - 1]);
    }
}

proof fn lemma_un_single(t: Tok, j: nat, o: Seq<char>)
    ensures
        un_tok(seq![t], j, o) == if t == Err::<char, nat>(j) { char_toks(o) } else { seq![t] },
{
    let s = seq![t];
    assert(s.drop_first() =~= Seq::<Tok>::empty());
    assert(un_tok(s.drop_first(), j, o) == Seq::<Tok>::empty());
    let head: Seq<Tok> = if t == Err::<char, nat>(j) { char_toks(o) } else { seq![t] };
    assert(head + Seq::<Tok>::empty() =~= head);
}

proof fn lemma_expand_single(t: Tok, origs: Seq<Seq<char>>, m: nat)
    ensures
        expand(seq![t], origs, m) == expand_tok(t, origs, m),
{
    let s = seq![t];
    assert(s.drop_first() =~= Seq::<Tok>::empty());
    assert(expand(s.drop_first(), origs, m) == Seq::<Tok>::empty());
    assert(expand_tok(t, origs, m) + Seq::<Tok>::empty() =~= expand_tok(t, origs, m));
}

proof fn lemma_un_concat(a: Seq<Tok>, b: Seq<Tok>, j: nat, o: Seq<char>)
    ensures
        un_tok(a + b, j, o) == un_tok(a, j, o) + un_tok(b, j, o),
    decreases a.len(),
{
    if a.len() == 0 {
        assert(a + b =~= b);
        assert(un_tok(a, j, o) + un_tok(b, j, o) =~= un_tok(b, j, o));
    } else {
        lemma_un_concat(a.drop_first(), b, j, o);
        assert((a + b).drop_first() =~= a.drop_first() + b);
        assert((a + b)[0] == a[0]);
        let head: Seq<Tok> = if a[0] == Err::<char, nat>(j) { char_toks(o) } else { seq![a[0]] };
        assert(head + (un_tok(a.drop_first(), j, o) + un_tok(b, j, o)) =~= (head + un_tok(a.drop_first(), j, o)) + un_tok(b, j, o));
    }
}

proof fn lemma_expand_concat(a: Seq<Tok>, b: Seq<Tok>, origs: Seq<Seq<char>>, m: nat)
    ensures
        expand(a + b, origs, m) == expand(a, origs, m) + expand(b, origs, m),
    decreases a.len(),
{
    if a.len() == 0 {
        assert(a + b =~= b);
        assert(expand(a, origs, m) + expand(b, origs, m) =~= expand(b, origs, m));
    } else {
        lemma_expand_concat(a.drop_first(), b, origs, m);
        assert((a + b).drop_first() =~= a.drop_first() + b);
        assert((a + b)[0] == a[0]);
        let head = expand_tok(a[0], origs, m);
        assert(head + (expand(a.drop_first(), origs, m) + expand(b, origs, m)) =~= (head + expand(a.drop_first(), origs, m)) + expand(b, origs, m));
    }
}

/// Tokens that are all characters.
pub open spec fn all_chars(ts: Seq<Tok>) -> bool {
    forall|k: int| 0 <= k < ts.len() ==> (#[trigger] ts[k]) is Ok
}

proof fn lemma_expand_chars(ts: Seq<Tok>, origs: Seq<Seq<char>>, m: nat, j: nat, o: Seq<char>)
    requires
        all_chars(ts),
    ensures
        expand(ts, origs, m) == ts,
        un_tok(ts, j, o) == ts,
    decreases ts.len(),
{
    if ts.len() > 0 {
        let rest = ts.drop_first();
        assert forall|k: int| 0 <= k < rest.len() implies (#[trigger] rest[k]) is Ok by {
            assert(rest[k] == ts[k + 1]);
        }
        lemma_expand_chars(rest, origs, m, j, o);
        assert(ts[0] is Ok);
        assert(seq![ts[0]] + rest =~= ts);
    }
}

proof fn lemma_char_toks_all_chars(s: Seq<char>)
    ensures
        all_chars(char_toks(s)),
{
    lemma_char_toks(s);
}

proof fn lemma_expand_zero(ts: Seq<Tok>, origs: Seq<Seq<char>>)
    ensures
        expand(ts, origs, 0) == ts,
    decreases ts.len(),
{
    if ts.len() > 0 {
        lemma_expand_zero(ts.drop_first(), origs);
        assert(seq![ts[0]] + ts.drop_first() =~= ts);
    }
}

proof fn lemma_un_expand_step(ts: Seq<Tok>, origs: Seq<Seq<char>>, m: nat)
    requires
        m < origs.len(),
    ensures
        un_tok(expand(ts, origs, m), m, origs[m as int]) == expand(ts, origs, m + 1),
    decreases ts.len(),
{
    if ts.len() > 0 {
        let t0 = ts[0];
        let rest = ts.drop_first();
        lemma_un_expand_step(rest, origs, m);
        let e = expand_tok(t0, origs, m);
        lemma_un_concat(e, expand(rest, origs, m), m, origs[m as int]);
        match t0 {
            Ok(c) => {
                assert(un_tok(seq![t0], m, origs[m as int]) == seq![t0]) by {
                    lemma_expand_chars(seq![t0], origs, m, m, origs[m as int]);
                }
            },
            Err(i) => {
                if i < m {
                    lemma_char_toks_all_chars(origs[i as int]);
                    lemma_expand_chars(char_toks(origs[i as int]), origs, m, m, origs[m as int]);
                } else {
                    lemma_un_single(t0, m, origs[m as int]);
                }
            },
        }
    }
}

proof fn lemma_un_all_expand(ts: Seq<Tok>, origs: Seq<Seq<char>>, m: nat)
    requires
        m <= origs.len(),
    ensures
        un_all(ts, origs, m) == expand(ts, origs, m),
    decreases m,
{
    if m == 0 {
        lemma_expand_zero(ts, origs);
    } else {
        lemma_un_all_expand(ts, origs, (m - 1) as nat);
        lemma_un_expand_step(ts, origs, (m - 1) as nat);
    }
}

proof fn lemma_expand_rep(ts: Seq<Tok>, origs: Seq<Seq<char>>, n: nat, k: nat)
    requires
        k < n,
        k < origs.len(),
        origs[k as int].len() > 0,
    ensures
        expand(rep_tok(ts, origs[k as int], k), origs, n) == expand(ts, origs, n),
    decreases ts.len(),
{
    let o = origs[k as int];
    if ts.len() > 0 {
        if spells(ts, o) {
            let rest = ts.skip(o.len() as int);
            lemma_expand_rep(rest, origs, n, k);
            lemma_expand_concat(seq![Err::<char, nat>(k)], rep_tok(rest, o, k), origs, n);
            lemma_expand_single(Err::<char, nat>(k), origs, n);
            assert(ts =~= ts.take(o.len() as int) + rest);
            lemma_expand_concat(ts.take(o.len() as int), rest, origs, n);
            lemma_char_toks(o);
            assert(ts.take(o.len() as int) =~= char_toks(o));
            lemma_char_toks_all_chars(o);
            lemma_expand_chars(char_toks(o), origs, n, k, o);
        } else {
            let rest = ts.drop_first();
            lemma_expand_rep(rest, origs, n, k);
            lemma_expand_concat(seq![ts[0]], rep_tok(rest, o, k), origs, n);
            lemma_expand_concat(seq![ts[0]], rest, origs, n);
            assert(ts =~= seq![ts[0]] + rest);
        }
    }
}

proof fn lemma_expand_rep_all(ts: Seq<Tok>, origs: Seq<Seq<char>>, m: nat, n: nat)
    requires
        m <= n,
        n <= origs.len(),
        forall|k: int| 0 <= k < m ==> (#[trigger] origs[k]).len() > 0,
    ensures
        expand(rep_all(ts, origs, m), origs, n) == expand(ts, origs, n),
    decreases m,
{
    if m > 0 {
        lemma_expand_rep_all(ts, origs, (m - 1) as nat, n);
        assert(origs[m - 1].len() > 0);
        lemma_expand_rep(rep_all(ts, origs, (m - 1) as nat), origs, n, (m - 1) as nat);
    }
}

/// Hiding bracketed texts behind placeholders and putting them back gives
/// the text back, for any number of bracketed texts, each opening with `<`,
/// closing with `>` and without `@placeholder`, in a text without
/// `@placeholder`. (A text that already holds a placeholder such as
/// `@placeholder0;` would get a bracketed text in its place.)
pub proof fn law_placeholders_round_trip(text: Seq<char>, origs: Seq<Seq<char>>)
    requires
        !contains_seq(text, header()),
        forall|k: int| 0 <= k < origs.len() ==> bracket_like(#[trigger] origs[k]),
    ensures
        restore(protect(text, origs, origs.len()), origs, origs.len()) == text,
{
    let n = origs.len();
    let ts = char_toks(text);
    lemma_char_toks(text);
    lemma_flat_chars(text);
    lemma_chars_no_header(text);
    lemma_rep_all(ts, origs, n);
    let r = rep_all(ts, origs, n);
    lemma_un_all(r, origs, n);
    lemma_un_all_expand(r, origs, n);
    assert forall|k: int| 0 <= k < n implies (#[trigger] origs[k]).len() > 0 by {
        assert(bracket_like(origs[k]));
    }
    lemma_expand_rep_all(ts, origs, n, n);
    lemma_char_toks_all_chars(text);
    lemma_expand_chars(ts, origs, n, 0, seq![]);
}

/// Stripping colons puts every bracketed text back where it was: when the
/// colon pass finds nothing to strip outside the brackets, the text comes
/// back unchanged, however many bracketed spans it has. Stated for texts
/// without `@placeholder` whose bracketed spans each open with `<`, close
/// with `>` and hold no `@placeholder`.
pub proof fn law_strip_colons_restores_brackets(input: Seq<char>)
    requires
        !contains_seq(input, header()),
        ({
            let origs = bracket_texts(input, pattern_captures(ANGLE_PATTERN@, input));
            &&& forall|k: int| 0 <= k < origs.len() ==> bracket_like(#[trigger] origs[k])
            &&& pattern_replace_all(COLON_PATTERN@, protect(input, origs, origs.len()), GROUP_TEMPLATE@)
                == protect(input, origs, origs.len())
        }),
    ensures
        strip_colons(input) == input,
{
    let origs = bracket_texts(input, pattern_captures(ANGLE_PATTERN@, input));
    law_placeholders_round_trip(input, origs);
}

/// Hiding the bracketed texts turns the text into tokens: the protected text
/// is what the characters of the text spell once every run that spells a
/// bracketed text, taken in order, has become its placeholder token, and
/// those characters do not spell `@placeholder`.
pub proof fn law_protect_gives_tokens(text: Seq<char>, origs: Seq<Seq<char>>)
    requires
        !contains_seq(text, header()),
        forall|k: int| 0 <= k < origs.len() ==> bracket_like(#[trigger] origs[k]),
    ensures
        protect(text, origs, origs.len()) == flat(rep_all(char_toks(text), origs, origs.len())),
        no_header(rep_all(char_toks(text), origs, origs.len())),
{
    lemma_flat_chars(text);
    lemma_chars_no_header(text);
    lemma_rep_all(char_toks(text), origs, origs.len());
}

/// Putting the placeholders back restores each bracketed text where its
/// placeholder stands, whatever characters stand around them: restoring a
/// text made of characters and placeholders, whose characters do not spell
/// `@placeholder`, gives that text with every placeholder replaced by its
/// bracketed text.
pub proof fn law_restore_expands_placeholders(ts: Seq<Tok>, origs: Seq<Seq<char>>)
    requires
        no_header(ts),
        forall|k: int| 0 <= k < origs.len() ==> bracket_like(#[trigger] origs[k]),
    ensures
        restore(flat(ts), origs, origs.len()) == flat(expand(ts, origs, origs.len())),
{
    lemma_un_all(ts, origs, origs.len());
    lemma_un_all_expand(ts, origs, origs.len());
}

/// Stripping colons puts every bracketed text back where its placeholder
/// stands, whatever the colon pass does to the text around the placeholders:
/// when the pass leaves a text made of characters and placeholders (`ts`),
/// the result is that text with each placeholder replaced by its bracketed
/// text. Stated for bracketed spans that each open with `<`, close with `>`
/// and hold no `@placeholder`, and a pass whose characters do not spell
/// `@placeholder`.
pub proof fn law_strip_colons_keeps_brackets(input: Seq<char>, ts: Seq<Tok>)
    requires
        no_header(ts),
        ({
            let origs = bracket_texts(input, pattern_captures(ANGLE_PATTERN@, input));
            &&& forall|k: int| 0 <= k < origs.len() ==> bracket_like(#[trigger] origs[k])
            &&& pattern_replace_all(COLON_PATTERN@, protect(input, origs, origs.len()), GROUP_TEMPLATE@)
                == flat(ts)
        }),
    ensures
        ({
            let origs = bracket_texts(input, pattern_captures(ANGLE_PATTERN@, input));
            strip_colons(input) == flat(expand(ts, origs, origs.len()))
        }),
{
    let origs = bracket_texts(input, pattern_captures(ANGLE_PATTERN@, input));
    law_restore_expands_placeholders(ts, origs);
}

} // verus!
