//! The search engine: slides a bounded-width window across the tokenized
//! input, walks each window down the phrase trie — substituting a fuzzy
//! candidate from the deletion index when a token fails exact descent and
//! the deletion bound allows it — applies the result selection policy, and
//! reports every hit with its edit distance and its character offsets.

use vstd::prelude::*;

use crate::text::{Token, lower_of, lowercase, lex_lt, spec_tokens, str_cmp, tokens_match, tokenize};
use crate::tree::{StringTree, child_node, search_children, wf, uri_at};
use crate::fuzzy::{
    DeletionIndex,
    covers,
    fuzzy_related,
    fuzzy_witness,
    min_fuzzy_dist,
    lemma_min_fuzzy_is,
    wf_index,
};

verus! {

/// The rule for choosing among the matches found at one window start.
#[derive(Clone, Copy, Debug)]
pub enum ResultSelection {
    /// Keep every terminal match found along the descent.
    All,
    /// Keep only the deepest (last-visited) terminal.
    Last,
    /// Keep only the matches of maximal token length.
    Longest,
}

/// One recognized phrase: its canonical identifier, the input tokens it
/// matched, and the edit distance of the match.
pub struct Match {
    pub uri: String,
    pub tokens: Vec<String>,
    pub edit_distance: usize,
}

/// One reporting position: the matched span of the source text, every match
/// kept by the selection policy, and the span's character offsets.
pub struct SearchResult {
    pub span_text: String,
    pub matches: Vec<Match>,
    pub start_offset: usize,
    pub end_offset: usize,
}

/// The view of one found match: identifier, matched tokens, edit distance.
pub open spec fn tviews(rs: Seq<(String, Vec<String>, usize)>) -> Seq<
    (Seq<char>, Seq<Seq<char>>, int),
> {
    rs.map_values(|r: (String, Vec<String>, usize)| (r.0@, r.1.deep_view(), r.2 as int))
}

/// The longest token length among the matches of one window start.
pub open spec fn max_tok_len(rs: Seq<(Seq<char>, Seq<Seq<char>>, int)>) -> int
    decreases rs.len(),
{
    if rs.len() == 0 {
        0
    } else {
        let m = max_tok_len(rs.drop_first());
        if rs[0].1.len() >= m {
            rs[0].1.len() as int
        } else {
            m
        }
    }
}

/// The matches whose token length is exactly `m`, in order.
pub open spec fn keep_longest(rs: Seq<(Seq<char>, Seq<Seq<char>>, int)>, m: int) -> Seq<
    (Seq<char>, Seq<Seq<char>>, int),
>
    decreases rs.len(),
{
    if rs.len() == 0 {
        rs
    } else {
        let rest = keep_longest(rs.drop_first(), m);
        if rs[0].1.len() == m {
            seq![rs[0]] + rest
        } else {
            rest
        }
    }
}

/// The selection policy over the matches of one window start, deepest last.
pub open spec fn spec_select(
    rs: Seq<(Seq<char>, Seq<Seq<char>>, int)>,
    sel: ResultSelection,
) -> Seq<(Seq<char>, Seq<Seq<char>>, int)> {
    match sel {
        ResultSelection::All => rs,
        ResultSelection::Last => if rs.len() == 0 {
            rs
        } else {
            seq![rs.last()]
        },
        ResultSelection::Longest => keep_longest(rs, max_tok_len(rs)),
    }
}

/// Selecting from a non-empty match list keeps at least one match, and
/// selecting from an empty one keeps none.
pub proof fn lemma_select_len(rs: Seq<(Seq<char>, Seq<Seq<char>>, int)>, sel: ResultSelection)
    ensures
        rs.len() == 0 ==> spec_select(rs, sel).len() == 0,
        rs.len() > 0 ==> spec_select(rs, sel).len() > 0,
    decreases rs.len(),
{
    if rs.len() > 0 {
        match sel {
            ResultSelection::Longest => {
                lemma_keep_longest_max(rs);
            },
            _ => {},
        }
    }
}

/// The maximal token length is attained, so `keep_longest` at the maximum is
/// non-empty.
proof fn lemma_keep_longest_max(rs: Seq<(Seq<char>, Seq<Seq<char>>, int)>)
    requires
        rs.len() > 0,
    ensures
        keep_longest(rs, max_tok_len(rs)).len() > 0,
    decreases rs.len(),
{
    if rs[0].1.len() as int != max_tok_len(rs) {
        assert(rs.drop_first().len() > 0) by {
            if rs.len() == 1 {
                assert(max_tok_len(rs.drop_first()) == 0);
            }
        }
        lemma_keep_longest_max(rs.drop_first());
    }
}

/// The maximal token length is an upper bound and is attained.
pub proof fn lemma_max_tok_bounds(rs: Seq<(Seq<char>, Seq<Seq<char>>, int)>)
    requires
        rs.len() > 0,
    ensures
        forall|k: int| 0 <= k < rs.len() ==> (#[trigger] rs[k]).1.len() <= max_tok_len(rs),
        exists|k: int| 0 <= k < rs.len() && (#[trigger] rs[k]).1.len() == max_tok_len(rs),
    decreases rs.len(),
{
    if rs.len() == 1 {
        assert(max_tok_len(rs.drop_first()) == 0);
        assert(rs[0].1.len() == max_tok_len(rs));
    } else {
        lemma_max_tok_bounds(rs.drop_first());
        let rest = rs.drop_first();
        assert forall|k: int| 0 <= k < rs.len() implies (#[trigger] rs[k]).1.len() <= max_tok_len(
            rs,
        ) by {
            if k > 0 {
                assert(rs[k] == rest[k - 1]);
            }
        }
        if rs[0].1.len() as int == max_tok_len(rs) {
            assert(rs[0].1.len() == max_tok_len(rs));
        } else {
            let k = choose|k: int|
                0 <= k < rest.len() && (#[trigger] rest[k]).1.len() == max_tok_len(rest);
            assert(rs[k + 1].1.len() == max_tok_len(rs));
        }
    }
}

/// Every selected match is one of the looked-up matches.
pub proof fn lemma_select_subset(rs: Seq<(Seq<char>, Seq<Seq<char>>, int)>, sel: ResultSelection)
    ensures
        forall|k: int|
            0 <= k < spec_select(rs, sel).len() ==> rs.contains(#[trigger] spec_select(rs, sel)[k]),
{
    match sel {
        ResultSelection::All => {
            assert forall|k: int| 0 <= k < rs.len() implies rs.contains(#[trigger] rs[k]) by {}
        },
        ResultSelection::Last => {
            if rs.len() > 0 {
                assert(rs[rs.len() - 1] == rs.last());
            }
        },
        ResultSelection::Longest => {
            lemma_keep_longest_subset(rs, max_tok_len(rs));
        },
    }
}

/// `keep_longest` keeps only elements of its input.
proof fn lemma_keep_longest_subset(rs: Seq<(Seq<char>, Seq<Seq<char>>, int)>, m: int)
    ensures
        forall|k: int|
            0 <= k < keep_longest(rs, m).len() ==> rs.contains(#[trigger] keep_longest(rs, m)[k]),
    decreases rs.len(),
{
    if rs.len() > 0 {
        lemma_keep_longest_subset(rs.drop_first(), m);
        let kept = keep_longest(rs, m);
        let rest = keep_longest(rs.drop_first(), m);
        assert forall|k: int| 0 <= k < kept.len() implies rs.contains(#[trigger] kept[k]) by {
            if rs[0].1.len() == m && k == 0 {
                assert(rs[0] == kept[0]);
                assert(rs.contains(rs[0]));
            } else {
                let kr = if rs[0].1.len() == m {
                    k - 1
                } else {
                    k
                };
                assert(kept[k] == rest[kr]);
                assert(rs.drop_first().contains(rest[kr]));
                let z = choose|z: int|
                    0 <= z < rs.drop_first().len() && rs.drop_first()[z] == rest[kr];
                assert(rs[z + 1] == rest[kr]);
                assert(rs.contains(rs[z + 1]));
            }
        }
    }
}

/// The deterministic output order of matches: by edit distance ascending,
/// then by identifier ascending.
pub open spec fn match_le(
    a: (Seq<char>, Seq<Seq<char>>, int),
    b: (Seq<char>, Seq<Seq<char>>, int),
) -> bool {
    a.2 < b.2 || (a.2 == b.2 && (lex_lt(a.0, b.0) || a.0 == b.0))
}

/// `x` placed before the first element it precedes in a list.
pub open spec fn insert_sorted(
    x: (Seq<char>, Seq<Seq<char>>, int),
    s: Seq<(Seq<char>, Seq<Seq<char>>, int)>,
) -> Seq<(Seq<char>, Seq<Seq<char>>, int)>
    decreases s.len(),
{
    if s.len() == 0 {
        seq![x]
    } else if match_le(x, s[0]) {
        seq![x] + s
    } else {
        seq![s[0]] + insert_sorted(x, s.drop_first())
    }
}

/// The matches of one window start in output order: insertion sort by
/// `match_le`, so by (edit distance, identifier) ascending.
pub open spec fn sort_matches_spec(s: Seq<(Seq<char>, Seq<Seq<char>>, int)>) -> Seq<
    (Seq<char>, Seq<Seq<char>>, int),
>
    decreases s.len(),
{
    if s.len() == 0 {
        s
    } else {
        insert_sorted(s[0], sort_matches_spec(s.drop_first()))
    }
}

/// `match_le` is total: any two matches compare one way or the other.
pub proof fn lemma_match_le_total(a: (Seq<char>, Seq<Seq<char>>, int), b: (Seq<char>, Seq<Seq<char>>, int))
    ensures
        match_le(a, b) || match_le(b, a),
{
    crate::text::lemma_lex_trichotomy(a.0, b.0);
}

/// `match_le` is transitive.
pub proof fn lemma_match_le_trans(
    a: (Seq<char>, Seq<Seq<char>>, int),
    b: (Seq<char>, Seq<Seq<char>>, int),
    c: (Seq<char>, Seq<Seq<char>>, int),
)
    requires
        match_le(a, b),
        match_le(b, c),
    ensures
        match_le(a, c),
{
    if a.2 == b.2 && b.2 == c.2 {
        if lex_lt(a.0, b.0) && lex_lt(b.0, c.0) {
            crate::text::lemma_lex_transitive(a.0, b.0, c.0);
        }
    }
}

/// The sort's output is sorted by `match_le`, and inserting keeps it so.
pub proof fn lemma_insert_sorted_ordered(
    x: (Seq<char>, Seq<Seq<char>>, int),
    s: Seq<(Seq<char>, Seq<Seq<char>>, int)>,
)
    requires
        forall|i: int, j: int| 0 <= i < j < s.len() ==> match_le(#[trigger] s[i], #[trigger] s[j]),
    ensures
        forall|i: int, j: int|
            0 <= i < j < insert_sorted(x, s).len() ==> match_le(
                #[trigger] insert_sorted(x, s)[i],
                #[trigger] insert_sorted(x, s)[j],
            ),
        insert_sorted(x, s).len() == s.len() + 1,
    decreases s.len(),
{
    let out = insert_sorted(x, s);
    if s.len() == 0 {
    } else if match_le(x, s[0]) {
        assert forall|i: int, j: int| 0 <= i < j < out.len() implies match_le(
            #[trigger] out[i],
            #[trigger] out[j],
        ) by {
            if i == 0 {
                assert(out[j] == s[j - 1]);
                if j == 1 {
                } else {
                    lemma_match_le_trans(x, s[0], s[j - 1]);
                }
            } else {
                assert(out[i] == s[i - 1]);
                assert(out[j] == s[j - 1]);
            }
        }
    } else {
        assert forall|i: int, j: int|
            0 <= i < j < s.drop_first().len() implies match_le(
            #[trigger] s.drop_first()[i],
            #[trigger] s.drop_first()[j],
        ) by {
            assert(s.drop_first()[i] == s[i + 1]);
            assert(s.drop_first()[j] == s[j + 1]);
        }
        lemma_insert_sorted_ordered(x, s.drop_first());
        lemma_match_le_total(x, s[0]);
        let rest = insert_sorted(x, s.drop_first());
        assert forall|i: int, j: int| 0 <= i < j < out.len() implies match_le(
            #[trigger] out[i],
            #[trigger] out[j],
        ) by {
            if i == 0 {
                assert(out[j] == rest[j - 1]);
                assert(match_le(s[0], out[j])) by {
                    lemma_insert_sorted_member(x, s.drop_first(), j - 1);
                    if rest[j - 1] == x {
                    } else {
                        let z = choose|z: int|
                            0 <= z < s.drop_first().len() && s.drop_first()[z] == rest[j - 1];
                        assert(s[z + 1] == rest[j - 1]);
                    }
                }
            } else {
                assert(out[i] == rest[i - 1]);
                assert(out[j] == rest[j - 1]);
            }
        }
    }
}

/// Every element of an insertion is the inserted one or one of the list.
proof fn lemma_insert_sorted_member(
    x: (Seq<char>, Seq<Seq<char>>, int),
    s: Seq<(Seq<char>, Seq<Seq<char>>, int)>,
    k: int,
)
    requires
        0 <= k < insert_sorted(x, s).len(),
    ensures
        insert_sorted(x, s)[k] == x || s.contains(#[trigger] insert_sorted(x, s)[k]),
    decreases s.len(),
{
    let out = insert_sorted(x, s);
    if s.len() == 0 {
    } else if match_le(x, s[0]) {
        if k > 0 {
            assert(out[k] == s[k - 1]);
            assert(s.contains(s[k - 1]));
        }
    } else {
        if k == 0 {
            assert(s.contains(s[0]));
        } else {
            lemma_insert_sorted_member(x, s.drop_first(), k - 1);
            let rest = insert_sorted(x, s.drop_first());
            assert(out[k] == rest[k - 1]);
            if rest[k - 1] != x {
                let z = choose|z: int|
                    0 <= z < s.drop_first().len() && s.drop_first()[z] == rest[k - 1];
                assert(s[z + 1] == rest[k - 1]);
                assert(s.contains(s[z + 1]));
            }
        }
    }
}

/// The sorted match list is ordered by (edit distance, identifier)
/// ascending and has the same length as its input.
pub proof fn lemma_sort_matches_sorted(s: Seq<(Seq<char>, Seq<Seq<char>>, int)>)
    ensures
        sort_matches_spec(s).len() == s.len(),
        forall|i: int, j: int|
            0 <= i < j < sort_matches_spec(s).len() ==> match_le(
                #[trigger] sort_matches_spec(s)[i],
                #[trigger] sort_matches_spec(s)[j],
            ),
    decreases s.len(),
{
    if s.len() > 0 {
        lemma_sort_matches_sorted(s.drop_first());
        lemma_insert_sorted_ordered(s[0], sort_matches_spec(s.drop_first()));
    }
}

/// Every sorted match is one of the unsorted ones.
pub proof fn lemma_sort_matches_subset(s: Seq<(Seq<char>, Seq<Seq<char>>, int)>)
    ensures
        forall|k: int|
            0 <= k < sort_matches_spec(s).len() ==> s.contains(#[trigger] sort_matches_spec(s)[k]),
    decreases s.len(),
{
    if s.len() > 0 {
        lemma_sort_matches_subset(s.drop_first());
        let sorted_rest = sort_matches_spec(s.drop_first());
        let out = sort_matches_spec(s);
        assert forall|k: int| 0 <= k < out.len() implies s.contains(#[trigger] out[k]) by {
            lemma_insert_sorted_member(s[0], sorted_rest, k);
            if out[k] == s[0] {
                assert(s.contains(s[0]));
            } else {
                let z = choose|z: int| 0 <= z < sorted_rest.len() && sorted_rest[z] == out[k];
                assert(s.drop_first().contains(sorted_rest[z]));
                let z2 = choose|z2: int|
                    0 <= z2 < s.drop_first().len() && s.drop_first()[z2] == out[k];
                assert(s[z2 + 1] == out[k]);
                assert(s.contains(s[z2 + 1]));
            }
        }
    }
}

/// Addition capped at the largest machine value.
pub open spec fn add_sat(a: int, b: int) -> int {
    if a + b > usize::MAX {
        usize::MAX as int
    } else {
        a + b
    }
}

/// The first child (in sorted order) that the deletion index recalls for
/// the lower-cased token `w`, from position `i` on.
pub open spec fn first_fuzzy(cs: Seq<StringTree>, idx: DeletionIndex, w: Seq<char>, i: int) -> Option<int>
    decreases cs.len() - i when 0 <= i
{
    if i >= cs.len() {
        None
    } else if fuzzy_related(idx, w, cs[i].value@) {
        Some(i)
    } else {
        first_fuzzy(cs, idx, w, i + 1)
    }
}

/// A scan that rejected every child before `i` pins `first_fuzzy` at `i`.
proof fn lemma_first_fuzzy_is(cs: Seq<StringTree>, idx: DeletionIndex, w: Seq<char>, j: int, i: int)
    requires
        0 <= j <= i <= cs.len(),
        forall|m: int| j <= m < i ==> !fuzzy_related(idx, w, (#[trigger] cs[m]).value@),
        i == cs.len() || fuzzy_related(idx, w, cs[i].value@),
    ensures
        first_fuzzy(cs, idx, w, j) == (if i == cs.len() {
            None::<int>
        } else {
            Some(i)
        }),
    decreases i - j,
{
    if j < i {
        lemma_first_fuzzy_is(cs, idx, w, j + 1, i);
    }
}

/// The matches the fuzzy-augmented descent finds below `t` for the tokens
/// `vs`, having already matched `acc` at accumulated edit distance `dbase`:
/// each token descends to the exact (lower-cased) child when one exists, at
/// no added distance; otherwise, when the deletion bound is positive, to the
/// first child the deletion index recalls for the token, adding that
/// candidate's (minimal) distance; otherwise the descent stops. Every
/// terminal passed yields its identifier, the original tokens matched so
/// far, and the accumulated distance.
pub open spec fn spec_fuzzy_traverse(
    t: StringTree,
    idx: DeletionIndex,
    vs: Seq<Seq<char>>,
    acc: Seq<Seq<char>>,
    dbase: int,
) -> Seq<(Seq<char>, Seq<Seq<char>>, int)>
    decreases vs.len(),
{
    if vs.len() == 0 {
        Seq::empty()
    } else {
        let w = lower_of(vs[0]);
        match child_node(t.children@, w) {
            Some(c) => {
                let acc2 = acc.push(vs[0]);
                let rest = spec_fuzzy_traverse(c, idx, vs.drop_first(), acc2, dbase);
                if c.uri@.len() > 0 {
                    seq![(c.uri@, acc2, dbase)] + rest
                } else {
                    rest
                }
            },
            None => {
                if idx.max_deletes > 0 {
                    match first_fuzzy(t.children@, idx, w, 0) {
                        Some(ci) => {
                            let c = t.children@[ci];
                            let d2 = add_sat(dbase, min_fuzzy_dist(idx, w, c.value@));
                            let acc2 = acc.push(vs[0]);
                            let rest = spec_fuzzy_traverse(c, idx, vs.drop_first(), acc2, d2);
                            if c.uri@.len() > 0 {
                                seq![(c.uri@, acc2, d2)] + rest
                            } else {
                                rest
                            }
                        },
                        None => Seq::empty(),
                    }
                } else {
                    Seq::empty()
                }
            },
        }
    }
}

/// Every match the fuzzy descent reports extends the already-matched tokens
/// by at least one token and at most the whole remaining window, and its
/// distance is at least the accumulated one.
pub proof fn lemma_fuzzy_depth(
    t: StringTree,
    idx: DeletionIndex,
    vs: Seq<Seq<char>>,
    acc: Seq<Seq<char>>,
    dbase: int,
)
    ensures
        forall|k: int|
            0 <= k < spec_fuzzy_traverse(t, idx, vs, acc, dbase).len() ==> {
                let m = #[trigger] spec_fuzzy_traverse(t, idx, vs, acc, dbase)[k];
                acc.len() < m.1.len() <= acc.len() + vs.len()
            },
    decreases vs.len(),
{
    if vs.len() > 0 {
        let w = lower_of(vs[0]);
        let acc2 = acc.push(vs[0]);
        let whole = spec_fuzzy_traverse(t, idx, vs, acc, dbase);
        match child_node(t.children@, w) {
            Some(c) => {
                lemma_fuzzy_depth(c, idx, vs.drop_first(), acc2, dbase);
                let rest = spec_fuzzy_traverse(c, idx, vs.drop_first(), acc2, dbase);
                assert forall|k: int| 0 <= k < whole.len() implies {
                    let m = #[trigger] whole[k];
                    acc.len() < m.1.len() <= acc.len() + vs.len()
                } by {
                    if c.uri@.len() > 0 {
                        if k > 0 {
                            assert(whole[k] == rest[k - 1]);
                        }
                    } else {
                        assert(whole[k] == rest[k]);
                    }
                }
            },
            None => {
                if idx.max_deletes > 0 {
                    match first_fuzzy(t.children@, idx, w, 0) {
                        Some(ci) => {
                            let c = t.children@[ci];
                            let d2 = add_sat(dbase, min_fuzzy_dist(idx, w, c.value@));
                            lemma_fuzzy_depth(c, idx, vs.drop_first(), acc2, d2);
                            let rest = spec_fuzzy_traverse(c, idx, vs.drop_first(), acc2, d2);
                            assert forall|k: int| 0 <= k < whole.len() implies {
                                let m = #[trigger] whole[k];
                                acc.len() < m.1.len() <= acc.len() + vs.len()
                            } by {
                                if c.uri@.len() > 0 {
                                    if k > 0 {
                                        assert(whole[k] == rest[k - 1]);
                                    }
                                } else {
                                    assert(whole[k] == rest[k]);
                                }
                            }
                        },
                        None => {},
                    }
                }
            },
        }
    }
}

/// The (possibly shortened) window of `w` token texts starting at token `i`.
pub open spec fn window_texts(text: Seq<char>, i: int, w: int) -> Seq<Seq<char>> {
    let spans = spec_tokens(text);
    spans.subrange(
        i,
        if i + w <= spans.len() {
            i + w
        } else {
            spans.len() as int
        },
    ).map_values(|sp: (int, int)| text.subrange(sp.0, sp.1))
}

/// The matches the selection policy keeps at window start `i`, in output
/// order: (edit distance, identifier) ascending.
pub open spec fn spec_matches_at(
    t: StringTree,
    idx: DeletionIndex,
    text: Seq<char>,
    i: int,
    w: int,
    sel: ResultSelection,
) -> Seq<(Seq<char>, Seq<Seq<char>>, int)> {
    sort_matches_spec(
        spec_select(
            spec_fuzzy_traverse(t, idx, window_texts(text, i, w), Seq::empty(), 0),
            sel,
        ),
    )
}

/// The window starts, in ascending order from `i` on, whose selected match
/// list is non-empty: exactly the positions that produce a search result.
pub open spec fn spec_hits(
    t: StringTree,
    idx: DeletionIndex,
    text: Seq<char>,
    w: int,
    sel: ResultSelection,
    i: int,
) -> Seq<int>
    decreases spec_tokens(text).len() - i when i >= 0
{
    if i >= spec_tokens(text).len() {
        Seq::empty()
    } else if spec_matches_at(t, idx, text, i, w, sel).len() > 0 {
        seq![i] + spec_hits(t, idx, text, w, sel, i + 1)
    } else {
        spec_hits(t, idx, text, w, sel, i + 1)
    }
}

/// `ms` carries exactly the matches `sm`, in the same (sorted) order.
pub open spec fn matches_correspond(
    ms: Seq<Match>,
    sm: Seq<(Seq<char>, Seq<Seq<char>>, int)>,
) -> bool {
    &&& ms.len() == sm.len()
    &&& forall|q: int|
        0 <= q < ms.len() ==> {
            let m = #[trigger] ms[q];
            m.uri@ == sm[q].0 && m.tokens.deep_view() == sm[q].1 && m.edit_distance as int
                == sm[q].2
        }
}

/// A search result `r` reports window start `i` correctly: its matches are
/// the selected ones in (edit distance, identifier) order, its span text is
/// the exact source substring from the first matched token's start to the
/// end of the deepest match's last token, its start offset is that first
/// token's start, and its end offset extends one past the final token when
/// more text follows it (else it is that token's end).
pub open spec fn result_correct(
    r: SearchResult,
    t: StringTree,
    idx: DeletionIndex,
    text: Seq<char>,
    i: int,
    w: int,
    sel: ResultSelection,
) -> bool {
    let spans = spec_tokens(text);
    let sm = spec_matches_at(t, idx, text, i, w, sel);
    let last_end = spans[i + max_tok_len(sm) - 1].1;
    &&& matches_correspond(r.matches@, sm)
    &&& r.start_offset == spans[i].0
    &&& r.span_text@ == text.subrange(spans[i].0, last_end)
    &&& r.end_offset == (if last_end < text.len() {
        last_end + 1
    } else {
        last_end
    })
}

/// The spans of `spec_tokens` are within bounds, non-empty, and ascending.
pub proof fn lemma_spans_ordered(s: Seq<char>, i: int)
    requires
        0 <= i <= s.len(),
    ensures
        forall|k: int|
            0 <= k < crate::text::spec_tokens_from(s, i).len() ==> {
                let sp = #[trigger] crate::text::spec_tokens_from(s, i)[k];
                i <= sp.0 < sp.1 <= s.len()
            },
        forall|k: int, k2: int|
            0 <= k < k2 < crate::text::spec_tokens_from(s, i).len()
                ==> (#[trigger] crate::text::spec_tokens_from(s, i)[k]).1 <= (
            #[trigger] crate::text::spec_tokens_from(s, i)[k2]).0,
    decreases s.len() - i,
{
    if i < s.len() {
        if crate::text::is_delim(s[i]) {
            lemma_spans_ordered(s, i + 1);
            assert forall|k: int|
                0 <= k < crate::text::spec_tokens_from(s, i).len() implies {
                let sp = #[trigger] crate::text::spec_tokens_from(s, i)[k];
                i <= sp.0 < sp.1 <= s.len()
            } by {
                assert(crate::text::spec_tokens_from(s, i)[k] == crate::text::spec_tokens_from(
                    s,
                    i + 1,
                )[k]);
            }
        } else {
            crate::text::lemma_token_end(s, i);
            let e = crate::text::token_end(s, i);
            assert(e > i) by {
                if e == i {
                    assert(e == s.len() || crate::text::is_delim(s[e]));
                }
            }
            lemma_spans_ordered(s, e);
            let whole = crate::text::spec_tokens_from(s, i);
            let rest = crate::text::spec_tokens_from(s, e);
            assert(whole == seq![(i, e)] + rest);
            assert forall|k: int| 0 <= k < whole.len() implies {
                let sp = #[trigger] whole[k];
                i <= sp.0 < sp.1 <= s.len()
            } by {
                if k == 0 {
                    assert(whole[0] == (i, e));
                } else {
                    assert(whole[k] == rest[k - 1]);
                }
            }
            assert forall|k: int, k2: int| 0 <= k < k2 < whole.len() implies (
            #[trigger] whole[k]).1 <= (#[trigger] whole[k2]).0 by {
                if k == 0 {
                    assert(whole[0] == (i, e));
                    assert(whole[k2] == rest[k2 - 1]);
                    assert(e <= rest[k2 - 1].0);
                } else {
                    assert(whole[k] == rest[k - 1]);
                    assert(whole[k2] == rest[k2 - 1]);
                }
            }
        }
    }
}

/// Applies the selection policy to the matches of one window start, given
/// deepest last as the descent reports them.
fn select_matches(rs: Vec<(String, Vec<String>, usize)>, sel: ResultSelection) -> (out: Vec<
    (String, Vec<String>, usize),
>)
    ensures
        tviews(out@) == spec_select(tviews(rs@), sel),
{
    match sel {
        ResultSelection::All => rs,
        ResultSelection::Last => {
            let mut rs = rs;
            let mut out: Vec<(String, Vec<String>, usize)> = Vec::new();
            if rs.len() > 0 {
                let ghost pre = rs@;
                if let Some(last) = rs.pop() {
                    out.push(last);
                }
                proof {
                    assert(tviews(out@) =~= seq![tviews(pre).last()]);
                }
            } else {
                proof {
                    assert(tviews(out@) =~= spec_select(tviews(rs@), sel));
                }
            }
            out
        },
        ResultSelection::Longest => {
            let ghost target = tviews(rs@);
            let n = rs.len();
            let m = max_len_of(&rs);
            let mut out: Vec<(String, Vec<String>, usize)> = Vec::new();
            let mut p: usize = 0;
            proof {
                assert(target.skip(0) =~= target);
            }
            while p < n
                invariant
                    p <= n,
                    n == rs@.len(),
                    target == tviews(rs@),
                    m as int == max_tok_len(target),
                    keep_longest(target, m as int) =~= tviews(out@) + keep_longest(
                        target.skip(p as int),
                        m as int,
                    ),
                decreases n - p,
            {
                let ghost old_out = out@;
                let keep = rs[p].1.len() == m;
                if keep {
                    out.push(
                        (rs[p].0.clone(), crate::tree::clone_strings(&rs[p].1), rs[p].2),
                    );
                }
                proof {
                    assert(target.skip(p as int).drop_first() =~= target.skip(p + 1));
                    assert(target.skip(p as int)[0] == target[p as int]);
                    if keep {
                        assert(tviews(out@) =~= tviews(old_out).push(target[p as int]));
                        assert(keep_longest(target, m as int) =~= tviews(out@) + keep_longest(
                            target.skip(p + 1),
                            m as int,
                        ));
                    }
                }
                p += 1;
            }
            proof {
                assert(target.skip(n as int) =~= Seq::<(Seq<char>, Seq<Seq<char>>, int)>::empty());
                assert(tviews(out@) =~= keep_longest(target, m as int));
            }
            out
        },
    }
}

/// The longest token count among a list of found matches.
fn max_len_of(rs: &Vec<(String, Vec<String>, usize)>) -> (m: usize)
    ensures
        m as int == max_tok_len(tviews(rs@)),
{
    let ghost target = tviews(rs@);
    let n = rs.len();
    let mut m: usize = 0;
    let mut qq: usize = n;
    proof {
        assert(target.skip(n as int) =~= Seq::<(Seq<char>, Seq<Seq<char>>, int)>::empty());
    }
    while qq > 0
        invariant
            qq <= n,
            n == rs@.len(),
            target == tviews(rs@),
            m as int == max_tok_len(target.skip(qq as int)),
        decreases qq,
    {
        qq = qq - 1;
        let l = rs[qq].1.len();
        if l > m {
            m = l;
        }
        proof {
            assert(target.skip(qq as int).drop_first() =~= target.skip(qq + 1));
            assert(target.skip(qq as int)[0].1.len() == l);
        }
    }
    proof {
        assert(target.skip(0) =~= target);
    }
    m
}

/// `insert_sorted` places `x` exactly at the first position whose element
/// it precedes.
proof fn lemma_insert_sorted_at(
    x: (Seq<char>, Seq<Seq<char>>, int),
    s: Seq<(Seq<char>, Seq<Seq<char>>, int)>,
    p: int,
)
    requires
        0 <= p <= s.len(),
        forall|q: int| 0 <= q < p ==> !match_le(x, #[trigger] s[q]),
        p == s.len() || match_le(x, s[p]),
    ensures
        insert_sorted(x, s) =~= s.take(p) + seq![x] + s.skip(p),
    decreases p,
{
    if p == 0 {
        if s.len() == 0 {
            assert(insert_sorted(x, s) =~= s.take(0) + seq![x] + s.skip(0));
        } else {
            assert(insert_sorted(x, s) =~= s.take(0) + seq![x] + s.skip(0));
        }
    } else {
        assert forall|q: int| 0 <= q < p - 1 implies !match_le(
            x,
            #[trigger] s.drop_first()[q],
        ) by {
            assert(s.drop_first()[q] == s[q + 1]);
        }
        if p - 1 < s.drop_first().len() {
            assert(s.drop_first()[p - 1] == s[p]);
        }
        lemma_insert_sorted_at(x, s.drop_first(), p - 1);
        assert(insert_sorted(x, s) =~= seq![s[0]] + insert_sorted(x, s.drop_first()));
        assert(s.drop_first().take(p - 1) =~= s.take(p).drop_first());
        assert(s.drop_first().skip(p - 1) =~= s.skip(p));
        assert(insert_sorted(x, s) =~= s.take(p) + seq![x] + s.skip(p));
    }
}

/// Places one match at its sorted position.
fn insert_match_sorted(
    x: (String, Vec<String>, usize),
    s: Vec<(String, Vec<String>, usize)>,
) -> (out: Vec<(String, Vec<String>, usize)>)
    ensures
        tviews(out@) == insert_sorted((x.0@, x.1.deep_view(), x.2 as int), tviews(s@)),
{
    let ghost xv = (x.0@, x.1.deep_view(), x.2 as int);
    let ghost sv = tviews(s@);
    let n = s.len();
    let mut pos: usize = 0;
    loop
        invariant
            pos <= n,
            n == s@.len(),
            sv == tviews(s@),
            xv == (x.0@, x.1.deep_view(), x.2 as int),
            forall|q: int| 0 <= q < pos ==> !match_le(xv, #[trigger] sv[q]),
        ensures
            pos <= n,
            forall|q: int| 0 <= q < pos ==> !match_le(xv, #[trigger] sv[q]),
            pos == n || match_le(xv, sv[pos as int]),
        decreases n - pos,
    {
        if pos >= n {
            break ;
        }
        proof {
            assert(sv[pos as int].0 == s@[pos as int].0@);
            assert(sv[pos as int].2 == s@[pos as int].2 as int);
        }
        let le: bool;
        if x.2 < s[pos].2 {
            le = true;
            proof {
                assert(match_le(xv, sv[pos as int]));
            }
        } else if x.2 == s[pos].2 {
            let c = str_cmp(x.0.as_str(), s[pos].0.as_str());
            le = c == -1 || c == 0;
            proof {
                assert(le == (lex_lt(xv.0, sv[pos as int].0) || xv.0 == sv[pos as int].0));
                assert(le == match_le(xv, sv[pos as int]));
            }
        } else {
            le = false;
            proof {
                assert(!match_le(xv, sv[pos as int]));
            }
        }
        if le {
            break ;
        }
        pos += 1;
    }
    proof {
        lemma_insert_sorted_at(xv, sv, pos as int);
    }
    let mut out = s;
    out.insert(pos, x);
    proof {
        assert(tviews(out@) =~= sv.take(pos as int) + seq![xv] + sv.skip(pos as int)) by {
            assert forall|z: int| 0 <= z < tviews(out@).len() implies tviews(out@)[z] == (sv.take(
                pos as int,
            ) + seq![xv] + sv.skip(pos as int))[z] by {
                if z < pos as int {
                    assert(out@[z] == s@[z]);
                } else if z == pos as int {
                    assert(out@[z] == x);
                } else {
                    assert(out@[z] == s@[z - 1]);
                }
            }
        }
    }
    out
}

/// Sorts the selected matches into output order: by (edit distance,
/// identifier) ascending.
fn sort_selected(rs: Vec<(String, Vec<String>, usize)>) -> (out: Vec<
    (String, Vec<String>, usize),
>)
    ensures
        tviews(out@) == sort_matches_spec(tviews(rs@)),
    decreases rs@.len(),
{
    if rs.len() == 0 {
        proof {
            assert(tviews(rs@) =~= Seq::<(Seq<char>, Seq<Seq<char>>, int)>::empty());
        }
        rs
    } else {
        let mut rs = rs;
        let ghost whole = rs@;
        let head = rs.remove(0);
        let sorted_rest = sort_selected(rs);
        proof {
            assert(tviews(whole).drop_first() =~= tviews(whole.drop_first()));
        }
        let out = insert_match_sorted(head, sorted_rest);
        proof {
            assert(tviews(out@) == sort_matches_spec(tviews(whole)));
        }
        out
    }
}

/// The engine: the phrase trie and the deletion index over its vocabulary.
pub struct SearchTree {
    pub tree: StringTree,
    pub index: DeletionIndex,
}

impl SearchTree {
    /// An empty engine: nothing indexed, fuzzy bound as given.
    pub fn new(max_deletes: usize) -> (s: SearchTree)
        ensures
            wf(s.tree),
            wf_index(s.index),
            s.index.max_deletes == max_deletes,
            forall|p: Seq<Seq<char>>| (#[trigger] uri_at(s.tree, p)).len() == 0,
    {
        SearchTree { tree: StringTree::root(), index: DeletionIndex::new(max_deletes) }
    }

    /// The fuzzy candidates for one observed token: every vocabulary token
    /// sharing a deletion variant with it within the configured bound, each
    /// once, at the smallest distance any shared variant yields.
    pub fn fuzzy_candidates(&self, observed: &String) -> (cands: Vec<(String, usize)>)
        requires
            wf_index(self.index),
        ensures
            forall|i: int, j: int|
                0 <= i < j < cands@.len() ==> (#[trigger] cands@[i]).0@ != (#[trigger] cands@[j]).0@,
            forall|i: int|
                0 <= i < cands@.len() ==> fuzzy_witness(
                    self.index,
                    observed@,
                    (#[trigger] cands@[i]).0@,
                    cands@[i].1 as int,
                ),
            forall|o: Seq<char>, d: int|
                #[trigger] fuzzy_witness(self.index, observed@, o, d) ==> covers(cands@, o, d),
    {
        self.index.lookup(observed)
    }

    /// Walks one window down the trie with fuzzy substitution: at each token
    /// the exact (lower-cased) child is taken when it exists; otherwise,
    /// when the deletion bound is positive, the first child the deletion
    /// index recalls for the token, at that candidate's distance; otherwise
    /// the descent stops. Every terminal passed is reported with the
    /// original tokens matched and the accumulated edit distance.
    fn fuzzy_traverse(&self, values: &Vec<String>) -> (out: Vec<(String, Vec<String>, usize)>)
        requires
            wf(self.tree),
            wf_index(self.index),
        ensures
            tviews(out@) == spec_fuzzy_traverse(
                self.tree,
                self.index,
                values.deep_view(),
                Seq::empty(),
                0,
            ),
    {
        let ghost vs = values.deep_view();
        let n = values.len();
        let mut results: Vec<(String, Vec<String>, usize)> = Vec::new();
        let mut acc: Vec<String> = Vec::new();
        let mut dist: usize = 0;
        let mut cur: &StringTree = &self.tree;
        let mut d: usize = 0;
        proof {
            assert(vs.skip(0) =~= vs);
            assert(acc.deep_view() =~= Seq::<Seq<char>>::empty());
            assert(tviews(results@) =~= Seq::<(Seq<char>, Seq<Seq<char>>, int)>::empty());
            assert(spec_fuzzy_traverse(self.tree, self.index, vs.skip(0), acc.deep_view(), 0)
                == spec_fuzzy_traverse(self.tree, self.index, vs, Seq::empty(), 0));
        }
        loop
            invariant
                d <= n,
                n == vs.len(),
                vs == values.deep_view(),
                wf(*cur),
                wf_index(self.index),
                acc@.len() == d,
                spec_fuzzy_traverse(self.tree, self.index, vs, Seq::empty(), 0) =~= tviews(
                    results@,
                ) + spec_fuzzy_traverse(
                    *cur,
                    self.index,
                    vs.skip(d as int),
                    acc.deep_view(),
                    dist as int,
                ),
            ensures
                spec_fuzzy_traverse(self.tree, self.index, vs, Seq::empty(), 0) =~= tviews(
                    results@,
                ),
            decreases n - d,
        {
            if d >= n {
                proof {
                    assert(vs.skip(d as int).len() == 0);
                }
                break ;
            }
            let low = lowercase(values[d].as_str());
            proof {
                assert(vs.skip(d as int)[0] == vs[d as int]);
                assert(low@ == lower_of(vs[d as int]));
            }
            let step: Option<(usize, usize)> = match search_children(&cur.children, low.as_str()) {
                Ok(ei) => Some((ei, 0)),
                Err(_) => {
                    proof {
                        assert(child_node(cur.children@, low@) is None);
                    }
                    if self.index.max_deletes > 0 {
                        let cands = self.index.lookup(&low);
                        let nc = cur.children.len();
                        let mut ci: usize = 0;
                        let mut found: Option<(usize, usize)> = None;
                        while ci < nc
                            invariant_except_break
                                found is None,
                            invariant
                                ci <= nc,
                                nc == cur.children@.len(),
                                wf_index(self.index),
                                d < n,
                                n == vs.len(),
                                low@ == lower_of(vs[d as int]),
                                forall|i: int, j: int|
                                    0 <= i < j < cands@.len() ==> (#[trigger] cands@[i]).0@ != (
                                    #[trigger] cands@[j]).0@,
                                forall|i: int|
                                    0 <= i < cands@.len() ==> fuzzy_witness(
                                        self.index,
                                        low@,
                                        (#[trigger] cands@[i]).0@,
                                        cands@[i].1 as int,
                                    ),
                                forall|o: Seq<char>, dd: int|
                                    #[trigger] fuzzy_witness(self.index, low@, o, dd) ==> covers(
                                        cands@,
                                        o,
                                        dd,
                                    ),
                                forall|m: int|
                                    0 <= m < ci ==> !fuzzy_related(
                                        self.index,
                                        low@,
                                        (#[trigger] cur.children@[m]).value@,
                                    ),
                            ensures
                                match found {
                                    Some(pair) => pair.0 < cur.children@.len() && first_fuzzy(
                                        cur.children@,
                                        self.index,
                                        low@,
                                        0,
                                    ) == Some(pair.0 as int) && pair.1 as int == min_fuzzy_dist(
                                        self.index,
                                        low@,
                                        cur.children@[pair.0 as int].value@,
                                    ),
                                    None => forall|m: int|
                                        0 <= m < cur.children@.len() ==> !fuzzy_related(
                                            self.index,
                                            low@,
                                            (#[trigger] cur.children@[m]).value@,
                                        ),
                                },
                            decreases nc - ci,
                        {
                            let mut p: usize = 0;
                            let npc = cands.len();
                            let mut hit: Option<usize> = None;
                            while p < npc
                                invariant_except_break
                                    hit is None,
                                invariant
                                    p <= npc,
                                    npc == cands@.len(),
                                    ci < cur.children@.len(),
                                    forall|z: int|
                                        0 <= z < p ==> (#[trigger] cands@[z]).0@
                                            != cur.children@[ci as int].value@,
                                ensures
                                    match hit {
                                        Some(ph) => ph < cands@.len() && cands@[ph as int].0@
                                            == cur.children@[ci as int].value@,
                                        None => forall|z: int|
                                            0 <= z < cands@.len() ==> (#[trigger] cands@[z]).0@
                                                != cur.children@[ci as int].value@,
                                    },
                                decreases npc - p,
                            {
                                if str_cmp(cands[p].0.as_str(), cur.children[ci].value.as_str())
                                    == 0 {
                                    hit = Some(p);
                                    break ;
                                }
                                p += 1;
                            }
                            match hit {
                                Some(p) => {
                                    proof {
                                        let o = cur.children@[ci as int].value@;
                                        assert(cands@[p as int].0@ == o);
                                        assert(fuzzy_witness(
                                            self.index,
                                            low@,
                                            o,
                                            cands@[p as int].1 as int,
                                        ));
                                        assert(fuzzy_related(self.index, low@, o));
                                        lemma_first_fuzzy_is(
                                            cur.children@,
                                            self.index,
                                            low@,
                                            0,
                                            ci as int,
                                        );
                                        assert forall|d2: int|
                                            fuzzy_witness(self.index, low@, o, d2) implies cands@[p as int].1
                                            as int <= d2 by {
                                            assert(covers(cands@, o, d2));
                                            let z = choose|z: int|
                                                0 <= z < cands@.len() && (#[trigger] cands@[z]).0@
                                                    == o && cands@[z].1 <= d2;
                                            assert(z == p as int) by {
                                                if z != p as int {
                                                    assert(cands@[z].0@ != cands@[p as int].0@);
                                                }
                                            }
                                        }
                                        lemma_min_fuzzy_is(
                                            self.index,
                                            low@,
                                            o,
                                            cands@[p as int].1 as int,
                                        );
                                    }
                                    found = Some((ci, cands[p].1));
                                    proof {
                                        assert(first_fuzzy(cur.children@, self.index, low@, 0)
                                            == Some(ci as int));
                                        assert(cands@[p as int].1 as int == min_fuzzy_dist(
                                            self.index,
                                            low@,
                                            cur.children@[ci as int].value@,
                                        ));
                                    }
                                    break ;
                                },
                                None => {
                                    proof {
                                        assert(!fuzzy_related(
                                            self.index,
                                            low@,
                                            cur.children@[ci as int].value@,
                                        )) by {
                                            if fuzzy_related(
                                                self.index,
                                                low@,
                                                cur.children@[ci as int].value@,
                                            ) {
                                                let o = cur.children@[ci as int].value@;
                                                let dd = choose|dd: int|
                                                    fuzzy_witness(self.index, low@, o, dd);
                                                assert(covers(cands@, o, dd));
                                                let z = choose|z: int|
                                                    0 <= z < cands@.len() && (
                                                    #[trigger] cands@[z]).0@ == o && cands@[z].1
                                                        <= dd;
                                            }
                                        }
                                    }
                                },
                            }
                            ci += 1;
                        }
                        proof {
                            if found is None {
                                lemma_first_fuzzy_is(
                                    cur.children@,
                                    self.index,
                                    low@,
                                    0,
                                    cur.children@.len() as int,
                                );
                            }
                        }
                        found
                    } else {
                        None
                    }
                },
            };
            match step {
                None => {
                    proof {
                        assert(spec_fuzzy_traverse(
                            *cur,
                            self.index,
                            vs.skip(d as int),
                            acc.deep_view(),
                            dist as int,
                        ).len() == 0);
                    }
                    break ;
                },
                Some((ci, dstep)) => {
                    let ghost old_acc = acc.deep_view();
                    let ghost old_results = results@;
                    let ghost old_dist = dist as int;
                    let c = &cur.children[ci];
                    acc.push(values[d].clone());
                    let dnext = if dist > usize::MAX - dstep {
                        usize::MAX
                    } else {
                        dist + dstep
                    };
                    proof {
                        assert(acc.deep_view() =~= old_acc.push(vs[d as int]));
                        assert(vs.skip(d as int).drop_first() =~= vs.skip(d + 1 as int));
                        if dstep == 0 && child_node(cur.children@, low@) is Some {
                            assert(dnext as int == old_dist);
                        } else {
                            assert(dnext as int == add_sat(old_dist, dstep as int));
                        }
                    }
                    if !c.uri.as_str().is_empty() {
                        results.push((c.uri.clone(), crate::tree::clone_strings(&acc), dnext));
                        proof {
                            assert(tviews(results@) =~= tviews(old_results).push(
                                (c.uri@, acc.deep_view(), dnext as int),
                            ));
                        }
                    }
                    proof {
                        let whole = spec_fuzzy_traverse(
                            *cur,
                            self.index,
                            vs.skip(d as int),
                            old_acc,
                            old_dist,
                        );
                        let rest = spec_fuzzy_traverse(
                            *c,
                            self.index,
                            vs.skip(d + 1 as int),
                            acc.deep_view(),
                            dnext as int,
                        );
                        assert(whole =~= (if c.uri@.len() > 0 {
                            seq![(c.uri@, acc.deep_view(), dnext as int)] + rest
                        } else {
                            rest
                        }));
                        assert(spec_fuzzy_traverse(self.tree, self.index, vs, Seq::empty(), 0)
                            =~= tviews(results@) + rest);
                    }
                    dist = dnext;
                    cur = c;
                    d += 1;
                },
            }
        }
        results
    }

    /// Scans `text`: tokenizes it, slides a window of up to `max_len` tokens
    /// (5 when omitted) across every start position, walks each window down
    /// the trie with fuzzy substitution where the engine's deletion bound
    /// allows, applies the selection policy (`Longest` when omitted), and
    /// returns one result per start position that kept at least one match,
    /// in ascending start order, each match list sorted by (edit distance,
    /// identifier).
    #[verifier::rlimit(100)]
    pub fn search(&self, text: &str, max_len: Option<usize>, selection: Option<ResultSelection>)
        -> (r: Vec<SearchResult>)
        requires
            wf(self.tree),
            wf_index(self.index),
        ensures
            ({
                let w = (match max_len {
                    Some(w) => w,
                    None => 5,
                }) as int;
                let sel = match selection {
                    Some(s) => s,
                    None => ResultSelection::Longest,
                };
                let hits = spec_hits(self.tree, self.index, text@, w, sel, 0);
                r@.len() == hits.len() && forall|k: int|
                    0 <= k < hits.len() ==> result_correct(
                        #[trigger] r@[k],
                        self.tree,
                        self.index,
                        text@,
                        hits[k],
                        w,
                        sel,
                    )
            }),
    {
        let w = match max_len {
            Some(w) => w,
            None => 5,
        };
        let sel = match selection {
            Some(s) => s,
            None => ResultSelection::Longest,
        };
        let toks = tokenize(text);
        let ghost tv = toks@;
        let ghost spans = spec_tokens(text@);
        let n = toks.len();
        let mut out: Vec<SearchResult> = Vec::new();
        let ghost mut starts: Seq<int> = Seq::empty();
        let mut i: usize = 0;
        proof {
            assert(spec_hits(self.tree, self.index, text@, w as int, sel, 0) =~= starts
                + spec_hits(self.tree, self.index, text@, w as int, sel, 0));
        }
        while i < n
            invariant
                i <= n,
                n == tv.len(),
                tv == toks@,
                spans == spec_tokens(text@),
                tv.len() == spans.len(),
                wf(self.tree),
                wf_index(self.index),
                tokens_match(text@, tv),
                out@.len() == starts.len(),
                spec_hits(self.tree, self.index, text@, w as int, sel, 0) =~= starts + spec_hits(
                    self.tree,
                    self.index,
                    text@,
                    w as int,
                    sel,
                    i as int,
                ),
                forall|k: int| 0 <= k < out@.len() ==> 0 <= #[trigger] starts[k] < tv.len(),
                forall|k: int|
                    0 <= k < out@.len() ==> result_correct(
                        #[trigger] out@[k],
                        self.tree,
                        self.index,
                        text@,
                        starts[k],
                        w as int,
                        sel,
                    ),
            decreases n - i,
        {
            let hi = if w >= n - i {
                n
            } else {
                i + w
            };
            let mut window: Vec<String> = Vec::new();
            let mut j: usize = i;
            while j < hi
                invariant
                    i <= j <= hi <= n,
                    n == toks@.len(),
                    window@.len() == j - i,
                    forall|q: int|
                        0 <= q < window@.len() ==> (#[trigger] window@[q])@ == toks@[i + q].text@,
                decreases hi - j,
            {
                window.push(toks[j].text.clone());
                j += 1;
            }
            proof {
                assert(hi as int == if i + w <= tv.len() {
                    i + w
                } else {
                    tv.len() as int
                });
                assert(window.deep_view() =~= window_texts(text@, i as int, w as int)) by {
                    assert forall|q: int| 0 <= q < window@.len() implies window.deep_view()[q]
                        == window_texts(text@, i as int, w as int)[q] by {
                        assert(window@[q]@ == tv[i + q].text@);
                        assert(tv[i + q].span() == spans[i + q]);
                        assert(tv[i + q].text@ == text@.subrange(spans[i + q].0, spans[i + q].1));
                    }
                }
            }
            let ghost sm = spec_matches_at(self.tree, self.index, text@, i as int, w as int, sel);
            let found = self.fuzzy_traverse(&window);
            let ghost full = spec_fuzzy_traverse(
                self.tree,
                self.index,
                window.deep_view(),
                Seq::empty(),
                0,
            );
            proof {
                lemma_select_len(full, sel);
                lemma_sort_matches_sorted(spec_select(full, sel));
            }
            if found.len() == 0 {
                proof {
                    assert(tviews(found@).len() == 0);
                    assert(sm.len() == 0);
                    assert(spec_hits(self.tree, self.index, text@, w as int, sel, i as int)
                        == spec_hits(self.tree, self.index, text@, w as int, sel, i + 1));
                }
            } else {
                proof {
                    assert(tviews(found@).len() == found@.len());
                    assert(sm.len() > 0);
                }
                let selected = select_matches(found, sel);
                let sorted = sort_selected(selected);
                proof {
                    assert(tviews(sorted@) == sm);
                    lemma_fuzzy_depth(self.tree, self.index, window.deep_view(), Seq::empty(), 0);
                    lemma_select_subset(full, sel);
                    lemma_sort_matches_subset(spec_select(full, sel));
                    assert forall|k: int| 0 <= k < sm.len() implies 1 <= (
                    #[trigger] sm[k]).1.len() <= tv.len() - i by {
                        assert(spec_select(full, sel).contains(sm[k]));
                        let z0 = choose|z0: int|
                            0 <= z0 < spec_select(full, sel).len() && spec_select(full, sel)[z0]
                                == sm[k];
                        assert(full.contains(sm[k]));
                        let z = choose|z: int| 0 <= z < full.len() && full[z] == sm[k];
                        assert(0 < full[z].1.len() <= window.deep_view().len());
                    }
                }
                let ghost old_out = out@;
                let result = build_result(text, &toks, i, sorted, Ghost(sm));
                proof {
                    assert(result_correct(
                        result,
                        self.tree,
                        self.index,
                        text@,
                        i as int,
                        w as int,
                        sel,
                    ));
                }
                out.push(result);
                proof {
                    let ghost old_starts = starts;
                    starts = starts.push(i as int);
                    assert(spec_hits(self.tree, self.index, text@, w as int, sel, i as int)
                        == seq![i as int] + spec_hits(
                        self.tree,
                        self.index,
                        text@,
                        w as int,
                        sel,
                        i + 1,
                    ));
                    assert(spec_hits(self.tree, self.index, text@, w as int, sel, 0) =~= starts
                        + spec_hits(self.tree, self.index, text@, w as int, sel, i + 1));
                    assert forall|k: int| 0 <= k < out@.len() implies 0 <= #[trigger] starts[k]
                        < tv.len() by {
                        if k < old_out.len() {
                            assert(starts[k] == old_starts[k]);
                        }
                    }
                    assert forall|k: int| 0 <= k < out@.len() implies result_correct(
                        #[trigger] out@[k],
                        self.tree,
                        self.index,
                        text@,
                        starts[k],
                        w as int,
                        sel,
                    ) by {
                        if k < old_out.len() {
                            assert(out@[k] == old_out[k]);
                            assert(starts[k] == old_starts[k]);
                        } else {
                            assert(out@[k] == result);
                            assert(starts[k] == i as int);
                        }
                    }
                }
            }
            i += 1;
        }
        proof {
            assert(spec_hits(self.tree, self.index, text@, w as int, sel, n as int) =~= Seq::<
                int,
            >::empty());
            assert(spec_hits(self.tree, self.index, text@, w as int, sel, 0) =~= starts);
        }
        out
    }
}

/// Assembles the search result for window start `i` from the sorted,
/// selected matches, with the span text and the character offsets.
fn build_result(
    text: &str,
    toks: &Vec<Token>,
    i: usize,
    sorted: Vec<(String, Vec<String>, usize)>,
    Ghost(sm): Ghost<Seq<(Seq<char>, Seq<Seq<char>>, int)>>,
) -> (r: SearchResult)
    requires
        tokens_match(text@, toks@),
        i < toks@.len(),
        tviews(sorted@) == sm,
        sm.len() > 0,
        forall|k: int|
            0 <= k < sm.len() ==> 1 <= (#[trigger] sm[k]).1.len() <= toks@.len() - i,
    ensures
        ({
            let spans = spec_tokens(text@);
            let last_end = spans[i + max_tok_len(sm) - 1].1;
            &&& matches_correspond(r.matches@, sm)
            &&& r.start_offset == spans[i as int].0
            &&& r.span_text@ == text@.subrange(spans[i as int].0, last_end)
            &&& r.end_offset == (if last_end < text@.len() {
                last_end + 1
            } else {
                last_end
            })
        }),
{
    let ghost spans = spec_tokens(text@);
    let depth = max_len_of(&sorted);
    proof {
        lemma_max_tok_bounds(sm);
        assert(1 <= max_tok_len(sm) <= toks@.len() - i) by {
            let z = choose|z: int|
                0 <= z < sm.len() && (#[trigger] sm[z]).1.len() == max_tok_len(sm);
        }
        lemma_spans_ordered(text@, 0);
        assert(toks@[i + depth - 1].span() == spans[i + depth - 1]);
        assert(toks@[i as int].span() == spans[i as int]);
        assert(spans[i as int].0 <= spans[i + depth - 1].1) by {
            if depth > 1 {
                assert(spans[i as int].1 <= spans[i + depth - 1].0);
            }
        }
    }
    let ntoks = toks.len();
    let start = toks[i].start;
    proof {
        assert(i + depth <= ntoks);
    }
    let last_end = toks[i + depth - 1].end;
    let span_text = text.substring_char(start, last_end).to_owned();
    let text_len = text.unicode_len();
    let end_offset = if last_end < text_len {
        last_end + 1
    } else {
        last_end
    };
    let mut matches: Vec<Match> = Vec::new();
    let mut q: usize = 0;
    let nsel = sorted.len();
    while q < nsel
        invariant
            q <= nsel,
            nsel == sorted@.len(),
            tviews(sorted@) == sm,
            matches@.len() == q,
            forall|z: int|
                0 <= z < q ==> {
                    let m = #[trigger] matches@[z];
                    m.uri@ == sm[z].0 && m.tokens.deep_view() == sm[z].1 && m.edit_distance as int
                        == sm[z].2
                },
        decreases nsel - q,
    {
        let m = Match {
            uri: sorted[q].0.clone(),
            tokens: crate::tree::clone_strings(&sorted[q].1),
            edit_distance: sorted[q].2,
        };
        matches.push(m);
        q += 1;
    }
    SearchResult { span_text, matches, start_offset: start, end_offset }
}

} // verus!
