//! Text primitives: case folding, a lexicographic order on character
//! sequences, and the tokenizer that splits raw text into offset-tagged
//! tokens.

use vstd::prelude::*;

verus! {

/// The character sequence that Unicode lowercasing produces for `s`.
pub uninterp spec fn lower_of(s: Seq<char>) -> Seq<char>;

/// Relies on str::to_lowercase: the result depends on the characters alone,
/// an empty string lowercases to the empty string, and the result is
/// case-stable (lowercasing an already lower-cased string changes nothing).
#[verifier::external_body]
pub fn lowercase(s: &str) -> (r: String)
    ensures
        r@ == lower_of(s@),
        s@.len() == 0 ==> r@.len() == 0,
        lower_of(r@) == r@,
{
    s.to_lowercase()
}

/// The lower-cased form of every token of a phrase, in order.
pub open spec fn lowered(vs: Seq<Seq<char>>) -> Seq<Seq<char>> {
    vs.map_values(|v: Seq<char>| lower_of(v))
}

/// Case-stable phrases: when each token's lower-cased form is itself
/// case-stable — as `lowercase` guarantees of everything it returns —
/// lower-casing an already lower-cased phrase changes nothing. A phrase and
/// its per-token lower-cased variant therefore denote the same trie path.
pub proof fn lemma_lowered_stable(vs: Seq<Seq<char>>)
    requires
        forall|i: int|
            0 <= i < vs.len() ==> lower_of(#[trigger] lower_of(vs[i])) == lower_of(vs[i]),
    ensures
        lowered(lowered(vs)) == lowered(vs),
{
    assert forall|i: int| 0 <= i < vs.len() implies lowered(lowered(vs))[i] == lowered(vs)[i] by {
        assert(lowered(vs)[i] == lower_of(vs[i]));
        assert(lowered(lowered(vs))[i] == lower_of(lowered(vs)[i]));
    }
    assert(lowered(lowered(vs)) =~= lowered(vs));
}

/// Strict lexicographic order on character sequences, by Unicode scalar value.
pub open spec fn lex_lt(a: Seq<char>, b: Seq<char>) -> bool
    decreases a.len(),
{
    if b.len() == 0 {
        false
    } else if a.len() == 0 {
        true
    } else if a[0] != b[0] {
        (a[0] as u32) < (b[0] as u32)
    } else {
        lex_lt(a.drop_first(), b.drop_first())
    }
}

/// `lex_lt` is a strict total order: of `lex_lt(a, b)`, `a == b` and
/// `lex_lt(b, a)`, exactly one holds.
pub proof fn lemma_lex_trichotomy(a: Seq<char>, b: Seq<char>)
    ensures
        lex_lt(a, b) || lex_lt(b, a) || a == b,
        lex_lt(a, b) ==> !lex_lt(b, a) && a != b,
        lex_lt(b, a) ==> !lex_lt(a, b) && a != b,
    decreases a.len(),
{
    if a.len() == 0 || b.len() == 0 {
        if a.len() == 0 && b.len() == 0 {
            assert(a =~= b);
        }
    } else if a[0] != b[0] {
        if (a[0] as u32) == (b[0] as u32) {
            vstd::utf8::char_u32_cast(a[0], a[0] as u32);
            vstd::utf8::char_u32_cast(b[0], b[0] as u32);
        }
        assert((a[0] as u32) != (b[0] as u32));
    } else {
        lemma_lex_trichotomy(a.drop_first(), b.drop_first());
        if a.drop_first() == b.drop_first() {
            assert forall|i: int| 0 <= i < a.len() implies a[i] == b[i] by {
                if i > 0 {
                    assert(a[i] == a.drop_first()[i - 1]);
                    assert(b[i] == b.drop_first()[i - 1]);
                }
            }
            assert(a =~= b);
        }
        if a == b {
            assert(a.drop_first() =~= b.drop_first());
        }
    }
}

/// `lex_lt` is transitive.
pub proof fn lemma_lex_transitive(a: Seq<char>, b: Seq<char>, c: Seq<char>)
    requires
        lex_lt(a, b),
        lex_lt(b, c),
    ensures
        lex_lt(a, c),
    decreases a.len(),
{
    if c.len() == 0 {
    } else if b.len() == 0 {
    } else if a.len() == 0 {
    } else {
        if a[0] == b[0] && b[0] == c[0] {
            lemma_lex_transitive(a.drop_first(), b.drop_first(), c.drop_first());
        }
    }
}

/// Three-way comparison of two strings under `lex_lt` on their views:
/// negative for less, zero for equal, positive for greater.
pub fn str_cmp(a: &str, b: &str) -> (r: i8)
    ensures
        r == -1i8 || r == 0i8 || r == 1i8,
        r == -1i8 <==> lex_lt(a@, b@),
        r == 1i8 <==> lex_lt(b@, a@),
        r == 0i8 <==> a@ == b@,
{
    let a_len = a.unicode_len();
    let b_len = b.unicode_len();
    let mut i: usize = 0;
    loop
        invariant
            i <= a_len,
            i <= b_len,
            a_len == a@.len(),
            b_len == b@.len(),
            a@.subrange(0, i as int) =~= b@.subrange(0, i as int),
        decreases a_len - i,
    {
        proof {
            lemma_lex_skip_common(a@, b@, i as int);
            lemma_lex_skip_common(b@, a@, i as int);
            lemma_lex_trichotomy(a@, b@);
        }
        if i >= a_len || i >= b_len {
            if a_len < b_len {
                proof {
                    assert(a@.skip(i as int).len() == 0);
                    assert(b@.skip(i as int).len() > 0);
                    assert(lex_lt(a@, b@));
                }
                return -1;
            } else if a_len > b_len {
                proof {
                    assert(b@.skip(i as int).len() == 0);
                    assert(a@.skip(i as int).len() > 0);
                    assert(lex_lt(b@, a@));
                }
                return 1;
            } else {
                proof {
                    assert forall|j: int| 0 <= j < a@.len() implies a@[j] == b@[j] by {
                        assert(a@[j] == a@.subrange(0, i as int)[j]);
                        assert(b@[j] == b@.subrange(0, i as int)[j]);
                    }
                    assert(a@ =~= b@);
                }
                return 0;
            }
        }
        let ca = a.get_char(i);
        let cb = b.get_char(i);
        if (ca as u32) < (cb as u32) {
            proof {
                assert(a@.skip(i as int)[0] == ca);
                assert(b@.skip(i as int)[0] == cb);
                broadcast use vstd::utf8::char_u32_cast;

                assert(ca != cb);
                assert(lex_lt(a@.skip(i as int), b@.skip(i as int)));
            }
            return -1;
        } else if (ca as u32) > (cb as u32) {
            proof {
                assert(a@.skip(i as int)[0] == ca);
                assert(b@.skip(i as int)[0] == cb);
                broadcast use vstd::utf8::char_u32_cast;

                assert(ca != cb);
                assert(lex_lt(b@.skip(i as int), a@.skip(i as int)));
            }
            return 1;
        }
        proof {
            broadcast use vstd::utf8::char_u32_cast;

            assert(ca == cb);
            assert(a@.subrange(0, i + 1) =~= b@.subrange(0, i + 1));
        }
        i += 1;
    }
}

/// The delimiter set: space, comma, period, colon, double quote and
/// parentheses split text into tokens and are themselves discarded.
pub open spec fn is_delim(c: char) -> bool {
    c == ' ' || c == ',' || c == '.' || c == ':' || c == '"' || c == '(' || c == ')'
}

/// Runtime test for membership in the delimiter set.
pub fn is_delimiter(c: char) -> (r: bool)
    ensures
        r == is_delim(c),
{
    c == ' ' || c == ',' || c == '.' || c == ':' || c == '"' || c == '(' || c == ')'
}

/// The position of the first delimiter at or after `i`, or the text length
/// when none follows: the exclusive end of a token starting at `i`.
pub open spec fn token_end(s: Seq<char>, i: int) -> int
    decreases s.len() - i when i <= s.len()
{
    if i >= s.len() {
        i
    } else if is_delim(s[i]) {
        i
    } else {
        token_end(s, i + 1)
    }
}

/// `token_end(s, i)` is the least delimiter-or-end position at or after `i`.
pub proof fn lemma_token_end(s: Seq<char>, i: int)
    requires
        0 <= i <= s.len(),
    ensures
        i <= token_end(s, i) <= s.len(),
        forall|j: int| i <= j < token_end(s, i) ==> !is_delim(s[j]),
        token_end(s, i) == s.len() || is_delim(s[token_end(s, i)]),
    decreases s.len() - i,
{
    if i < s.len() && !is_delim(s[i]) {
        lemma_token_end(s, i + 1);
    }
}

/// Any stretch of non-delimiters from `i` up to a delimiter-or-end position
/// `e` identifies `e` as `token_end(s, i)`.
pub proof fn lemma_token_end_is(s: Seq<char>, i: int, e: int)
    requires
        0 <= i <= e <= s.len(),
        forall|j: int| i <= j < e ==> !is_delim(s[j]),
        e == s.len() || is_delim(s[e]),
    ensures
        token_end(s, i) == e,
    decreases e - i,
{
    if i < e {
        lemma_token_end_is(s, i + 1, e);
    }
}

/// The token spans of `s` from position `i` on: maximal delimiter-free,
/// non-empty runs `(start, end)` in ascending order, `end` exclusive.
pub open spec fn spec_tokens_from(s: Seq<char>, i: int) -> Seq<(int, int)>
    decreases s.len() - i when 0 <= i <= s.len() via spec_tokens_from_dec
{
    if i >= s.len() {
        Seq::empty()
    } else if is_delim(s[i]) {
        spec_tokens_from(s, i + 1)
    } else {
        seq![(i, token_end(s, i))] + spec_tokens_from(s, token_end(s, i))
    }
}

#[via_fn]
proof fn spec_tokens_from_dec(s: Seq<char>, i: int) {
    if 0 <= i && i < s.len() && !is_delim(s[i]) {
        lemma_token_end(s, i);
    }
}

/// The token spans of the whole text `s`.
pub open spec fn spec_tokens(s: Seq<char>) -> Seq<(int, int)> {
    spec_tokens_from(s, 0)
}

/// The texts of the tokens of `s`, in order: the exact source substrings of
/// the spans of `spec_tokens`.
pub open spec fn token_texts(s: Seq<char>) -> Seq<Seq<char>> {
    spec_tokens(s).map_values(|sp: (int, int)| s.subrange(sp.0, sp.1))
}

/// The position of the first tab character at or after `i`, or the length
/// of `s` when none follows.
pub open spec fn first_tab(s: Seq<char>, i: int) -> int
    decreases s.len() - i when i <= s.len()
{
    if i >= s.len() {
        i
    } else if s[i] == '\t' {
        i
    } else {
        first_tab(s, i + 1)
    }
}

/// `first_tab(s, i)` is the least tab-or-end position at or after `i`.
pub proof fn lemma_first_tab(s: Seq<char>, i: int)
    requires
        0 <= i <= s.len(),
    ensures
        i <= first_tab(s, i) <= s.len(),
        forall|j: int| i <= j < first_tab(s, i) ==> s[j] != '\t',
        first_tab(s, i) == s.len() || s[first_tab(s, i)] == '\t',
    decreases s.len() - i,
{
    if i < s.len() && s[i] != '\t' {
        lemma_first_tab(s, i + 1);
    }
}

/// A tab-free stretch from `i` up to a tab-or-end position `e` identifies
/// `e` as `first_tab(s, i)`.
pub proof fn lemma_first_tab_is(s: Seq<char>, i: int, e: int)
    requires
        0 <= i <= e <= s.len(),
        forall|j: int| i <= j < e ==> s[j] != '\t',
        e == s.len() || s[e] == '\t',
    ensures
        first_tab(s, i) == e,
    decreases e - i,
{
    if i < e {
        lemma_first_tab_is(s, i + 1, e);
    }
}

/// The parse of a corpus line: the phrase and the identifier split at the
/// first tab; nothing when the line has no tab, or the tab stands first or
/// last.
pub open spec fn spec_parse(line: Seq<char>) -> Option<(Seq<char>, Seq<char>)> {
    let m = first_tab(line, 0);
    if m == line.len() || m == 0 || m == line.len() - 1 {
        None
    } else {
        Some((line.subrange(0, m), line.subrange(m + 1, line.len() as int)))
    }
}

/// A token of the input text: its characters and its character offsets,
/// `start` inclusive and `end` exclusive, in the original text.
pub struct Token {
    pub text: String,
    pub start: usize,
    pub end: usize,
}

impl Token {
    /// The `(start, end)` span of this token as mathematical integers.
    pub open spec fn span(self) -> (int, int) {
        (self.start as int, self.end as int)
    }
}

/// True when `toks` are exactly the tokens of `s`: one per span of
/// `spec_tokens(s)`, in order, each carrying the exact source substring.
pub open spec fn tokens_match(s: Seq<char>, toks: Seq<Token>) -> bool {
    &&& toks.len() == spec_tokens(s).len()
    &&& forall|k: int|
        0 <= k < toks.len() ==> (#[trigger] toks[k]).span() == spec_tokens(s)[k]
    &&& forall|k: int|
        0 <= k < toks.len() ==> (#[trigger] toks[k]).text@ == s.subrange(
            spec_tokens(s)[k].0,
            spec_tokens(s)[k].1,
        )
}

/// Splits `s` into its tokens: the maximal delimiter-free runs, left to
/// right, each with its character offsets in `s`.
pub fn tokenize(s: &str) -> (toks: Vec<Token>)
    ensures
        tokens_match(s@, toks@),
{
    let n = s.unicode_len();
    let mut toks: Vec<Token> = Vec::new();
    let mut i: usize = 0;
    proof {
        assert(spec_tokens(s@) =~= toks@.map_values(|t: Token| t.span()) + spec_tokens_from(
            s@,
            0,
        ));
    }
    while i < n
        invariant
            i <= n,
            n == s@.len(),
            spec_tokens(s@) =~= toks@.map_values(|t: Token| t.span()) + spec_tokens_from(
                s@,
                i as int,
            ),
            forall|k: int|
                0 <= k < toks@.len() ==> {
                    let sp = (#[trigger] toks@[k]).span();
                    0 <= sp.0 <= sp.1 <= s@.len() && toks@[k].text@ == s@.subrange(sp.0, sp.1)
                },
        decreases n - i,
    {
        let c = s.get_char(i);
        if is_delimiter(c) {
            proof {
                assert(spec_tokens_from(s@, i as int) == spec_tokens_from(s@, i + 1));
            }
            i += 1;
        } else {
            let start = i;
            let mut j = i + 1;
            loop
                invariant
                    start < j <= n,
                    n == s@.len(),
                    forall|k: int| start <= k < j ==> !is_delim(s@[k]),
                ensures
                    start < j <= n,
                    forall|k: int| start <= k < j ==> !is_delim(s@[k]),
                    j == n || is_delim(s@[j as int]),
                decreases n - j,
            {
                if j >= n {
                    break ;
                }
                let cj = s.get_char(j);
                if is_delimiter(cj) {
                    break ;
                }
                j += 1;
            }
            proof {
                lemma_token_end_is(s@, start as int, j as int);
            }
            let piece = s.substring_char(start, j);
            let token = Token { text: piece.to_owned(), start, end: j };
            let ghost old_toks = toks@;
            toks.push(token);
            proof {
                assert(toks@.map_values(|t: Token| t.span()) =~= old_toks.map_values(
                    |t: Token| t.span(),
                ).push((start as int, j as int)));
                assert(spec_tokens_from(s@, start as int) == seq![(start as int, j as int)]
                    + spec_tokens_from(s@, j as int));
                assert(spec_tokens(s@) =~= toks@.map_values(|t: Token| t.span())
                    + spec_tokens_from(s@, j as int));
            }
            i = j;
        }
    }
    proof {
        assert(spec_tokens_from(s@, n as int) =~= Seq::<(int, int)>::empty());
        assert(spec_tokens(s@) =~= toks@.map_values(|t: Token| t.span()));
        assert forall|k: int| 0 <= k < toks@.len() implies (#[trigger] toks@[k]).span()
            == spec_tokens(s@)[k] by {
            assert(toks@.map_values(|t: Token| t.span())[k] == toks@[k].span());
        }
    }
    toks
}

/// When the first `i` characters of `a` and `b` agree, the order of `a` and
/// `b` is the order of their remainders.
proof fn lemma_lex_skip_common(a: Seq<char>, b: Seq<char>, i: int)
    requires
        0 <= i <= a.len(),
        i <= b.len(),
        a.subrange(0, i) == b.subrange(0, i),
    ensures
        lex_lt(a, b) <==> lex_lt(a.skip(i), b.skip(i)),
    decreases i,
{
    if i > 0 {
        assert(a.subrange(0, i)[0] == a[0]);
        assert(b.subrange(0, i)[0] == b[0]);
        assert(a.drop_first().subrange(0, i - 1) =~= a.subrange(0, i).drop_first());
        assert(b.drop_first().subrange(0, i - 1) =~= b.subrange(0, i).drop_first());
        lemma_lex_skip_common(a.drop_first(), b.drop_first(), i - 1);
        assert(a.drop_first().skip(i - 1) =~= a.skip(i));
        assert(b.drop_first().skip(i - 1) =~= b.skip(i));
    } else {
        assert(a.skip(0) =~= a);
        assert(b.skip(0) =~= b);
    }
}

} // verus!
