//! The corpus loader: turns corpus lines (`phrase<TAB>identifier`) into trie
//! entries, optionally expanding each phrase into its n-grams and its
//! abbreviated variant, optionally filtering against a stoplist, and feeds
//! the deletion index with the phrase tokens.

use vstd::prelude::*;

use crate::text::{lowered, spec_parse, token_texts, tokenize, str_cmp, lemma_first_tab_is};
use crate::tree::{wf, uri_at};
use crate::fuzzy::wf_index;
use crate::search::SearchTree;

verus! {

/// Splits a corpus line at its first tab into phrase and identifier,
/// exactly as `spec_parse` says: a line without a tab, or whose first tab
/// stands first or last, is rejected.
pub fn parse_line(line: &str) -> (r: Option<(String, String)>)
    ensures
        r is Some <==> spec_parse(line@) is Some,
        r is Some ==> r->Some_0.0@ == spec_parse(line@)->Some_0.0 && r->Some_0.1@ == spec_parse(
            line@,
        )->Some_0.1,
{
    let n = line.unicode_len();
    let mut m: usize = 0;
    while m < n
        invariant
            m <= n,
            n == line@.len(),
            forall|z: int| 0 <= z < m ==> line@[z] != '\t',
        decreases n - m,
    {
        if line.get_char(m) == '\t' {
            proof {
                lemma_first_tab_is(line@, 0, m as int);
            }
            if m == 0 || m + 1 >= n {
                return None;
            }
            let phrase = line.substring_char(0, m).to_owned();
            let uri = line.substring_char(m + 1, n).to_owned();
            return Some((phrase, uri));
        }
        m += 1;
    }
    proof {
        lemma_first_tab_is(line@, 0, n as int);
    }
    None
}

/// Whether some token of `toks` stands in the stoplist `stop`.
pub open spec fn stop_hit(toks: Seq<Seq<char>>, stop: Seq<Seq<char>>) -> bool {
    exists|q: int, z: int|
        0 <= q < toks.len() && 0 <= z < stop.len() && #[trigger] toks[q] == #[trigger] stop[z]
}

/// The stoplist as token views; empty when no stoplist is given.
pub open spec fn stop_view(filter_list: Option<&Vec<String>>) -> Seq<Seq<char>> {
    match filter_list {
        Some(v) => v.deep_view(),
        None => Seq::empty(),
    }
}

/// A corpus line that `load` indexes: it parses, its identifier is
/// non-empty, its phrase has at least one token, and none of its tokens
/// stands in the stoplist.
pub open spec fn line_indexed(line: Seq<char>, stop: Seq<Seq<char>>) -> bool {
    match spec_parse(line) {
        Some(pu) => pu.1.len() > 0 && token_texts(pu.0).len() > 0 && !stop_hit(
            token_texts(pu.0),
            stop,
        ),
        None => false,
    }
}

/// The trie path of a line's phrase: its tokens, lower-cased.
pub open spec fn line_path(line: Seq<char>) -> Seq<Seq<char>> {
    lowered(token_texts(spec_parse(line)->Some_0.0))
}

/// A gram with start `aa` and inclusive end `ee` has been recorded.
pub open spec fn has_gram(origins: Seq<(usize, usize)>, aa: int, ee: int) -> bool {
    exists|k: int|
        0 <= k < origins.len() && (#[trigger] origins[k]).0 == aa && origins[k].1 == ee + 1
}

/// `g` is a contiguous run of at least two of the tokens `ts`.
pub open spec fn gram_sound(ts: Seq<Seq<char>>, g: Seq<Seq<char>>) -> bool {
    exists|aa: int|
        0 <= aa && 2 <= g.len() && aa + g.len() <= ts.len() && g == #[trigger] ts.subrange(
            aa,
            aa + g.len(),
        )
}

/// Some element of `out` carries exactly the token run `g`.
pub open spec fn gram_present(out: Seq<Vec<String>>, g: Seq<Seq<char>>) -> bool {
    exists|k: int| 0 <= k < out.len() && (#[trigger] out[k]).deep_view() == g
}

/// Exactly the contiguous token subsequences of length at least two: one
/// for every pair of a start and a later token, each with its exact tokens;
/// partial mentions of a long phrase are indexed too.
pub fn ngrams_of(tokens: &Vec<String>) -> (out: Vec<Vec<String>>)
    ensures
        forall|k: int|
            0 <= k < out@.len() ==> gram_sound(
                tokens.deep_view(),
                (#[trigger] out@[k]).deep_view(),
            ),
        forall|aa: int, ee: int|
            #![trigger tokens.deep_view().subrange(aa, ee + 1)]
            0 <= aa < ee < tokens@.len() ==> gram_present(
                out@,
                tokens.deep_view().subrange(aa, ee + 1),
            ),
{
    let n = tokens.len();
    let mut out: Vec<Vec<String>> = Vec::new();
    let mut origins: Vec<(usize, usize)> = Vec::new();
    let mut a: usize = 0;
    while a < n
        invariant
            a <= n,
            n == tokens@.len(),
            out@.len() == origins@.len(),
            forall|k: int|
                0 <= k < origins@.len() ==> (#[trigger] origins@[k]).0 + 2 <= origins@[k].1 <= n,
            forall|k: int|
                0 <= k < out@.len() ==> (#[trigger] out@[k]).deep_view()
                    == tokens.deep_view().subrange(
                    origins@[k].0 as int,
                    origins@[k].1 as int,
                ),
            forall|aa: int, ee: int|
                0 <= aa < a && aa < ee < n ==> #[trigger] has_gram(origins@, aa, ee),
        decreases n - a,
    {
        let mut e: usize = a + 1;
        while e < n
            invariant
                a < n,
                a + 1 <= e <= n,
                n == tokens@.len(),
                out@.len() == origins@.len(),
                forall|k: int|
                    0 <= k < origins@.len() ==> (#[trigger] origins@[k]).0 + 2 <= origins@[k].1
                        <= n,
                forall|k: int|
                    0 <= k < out@.len() ==> (#[trigger] out@[k]).deep_view()
                        == tokens.deep_view().subrange(
                        origins@[k].0 as int,
                        origins@[k].1 as int,
                    ),
                forall|aa: int, ee: int|
                    0 <= aa < a && aa < ee < n ==> #[trigger] has_gram(origins@, aa, ee),
                forall|ee: int| a < ee < e ==> #[trigger] has_gram(origins@, a as int, ee),
            decreases n - e,
        {
            let mut gram: Vec<String> = Vec::new();
            let mut j: usize = a;
            while j < e + 1
                invariant
                    a <= j <= e + 1 <= n,
                    n == tokens@.len(),
                    gram@.len() == j - a,
                    forall|q: int|
                        0 <= q < gram@.len() ==> (#[trigger] gram@[q])@ == tokens@[a + q]@,
                decreases e + 1 - j,
            {
                gram.push(tokens[j].clone());
                j += 1;
            }
            proof {
                assert(gram.deep_view() =~= tokens.deep_view().subrange(a as int, e + 1));
            }
            let ghost old_out = out@;
            let ghost old_origins = origins@;
            out.push(gram);
            origins.push((a, e + 1));
            proof {
                assert forall|k: int| 0 <= k < origins@.len() implies (#[trigger] origins@[k]).0
                    + 2 <= origins@[k].1 <= n by {
                    if k < old_origins.len() {
                        assert(origins@[k] == old_origins[k]);
                    }
                }
                assert forall|k: int| 0 <= k < out@.len() implies (#[trigger] out@[k]).deep_view()
                    == tokens.deep_view().subrange(
                    origins@[k].0 as int,
                    origins@[k].1 as int,
                ) by {
                    if k < old_out.len() {
                        assert(out@[k] == old_out[k]);
                        assert(origins@[k] == old_origins[k]);
                    } else {
                        assert(origins@[k].0 == a && origins@[k].1 == e + 1);
                    }
                }
                assert forall|aa: int, ee: int| 0 <= aa < a && aa < ee < n implies #[trigger] has_gram(
                    origins@,
                    aa,
                    ee,
                ) by {
                    assert(has_gram(old_origins, aa, ee));
                    let k = choose|k: int|
                        0 <= k < old_origins.len() && (#[trigger] old_origins[k]).0 == aa
                            && old_origins[k].1 == ee + 1;
                    assert(origins@[k] == old_origins[k]);
                    assert(has_gram(origins@, aa, ee));
                }
                assert forall|ee: int| a < ee < e + 1 implies #[trigger] has_gram(
                    origins@,
                    a as int,
                    ee,
                ) by {
                    if ee < e {
                        assert(has_gram(old_origins, a as int, ee));
                        let k = choose|k: int|
                            0 <= k < old_origins.len() && (#[trigger] old_origins[k]).0 == a as int
                                && old_origins[k].1 == ee + 1;
                        assert(origins@[k] == old_origins[k]);
                        assert(has_gram(origins@, a as int, ee));
                    } else {
                        assert(origins@[old_origins.len() as int].0 == a
                            && origins@[old_origins.len() as int].1 == e + 1);
                        assert(has_gram(origins@, a as int, ee));
                    }
                }
            }
            e += 1;
        }
        a += 1;
        proof {
            assert forall|aa: int, ee: int| 0 <= aa < a && aa < ee < n implies #[trigger] has_gram(
                origins@,
                aa,
                ee,
            ) by {
                assert(has_gram(origins@, aa, ee));
            }
        }
    }
    proof {
        assert forall|k: int| 0 <= k < out@.len() implies gram_sound(
            tokens.deep_view(),
            (#[trigger] out@[k]).deep_view(),
        ) by {
            let aa: int = origins@[k].0 as int;
            assert(out@[k].deep_view() == tokens.deep_view().subrange(
                origins@[k].0 as int,
                origins@[k].1 as int,
            ));
            assert(out@[k].deep_view().len() == origins@[k].1 - origins@[k].0);
            assert(out@[k].deep_view() == tokens.deep_view().subrange(
                aa,
                aa + out@[k].deep_view().len(),
            ));
        }
        assert forall|aa: int, ee: int|
            #![trigger tokens.deep_view().subrange(aa, ee + 1)]
            0 <= aa < ee < tokens@.len() implies gram_present(
            out@,
            tokens.deep_view().subrange(aa, ee + 1),
        ) by {
            assert(has_gram(origins@, aa, ee));
            let k = choose|k: int|
                0 <= k < origins@.len() && (#[trigger] origins@[k]).0 == aa && origins@[k].1 == ee
                    + 1;
            assert(out@[k].deep_view() == tokens.deep_view().subrange(aa, ee + 1));
        }
    }
    out
}

/// The abbreviated variant of a phrase: the first token replaced by its
/// initial character followed by a period, the remaining tokens unchanged;
/// none when the phrase has fewer than two tokens.
pub fn abbreviate(tokens: &Vec<String>) -> (r: Option<Vec<String>>)
    ensures
        match r {
            Some(ab) => tokens@.len() >= 2 && tokens@[0]@.len() > 0 && ab@.len() == tokens@.len()
                && ab.deep_view()[0] == seq![tokens@[0]@[0], '.'] && (forall|q: int|
                1 <= q < ab@.len() ==> ab.deep_view()[q] == #[trigger] tokens@[q]@),
            None => tokens@.len() < 2 || tokens@[0]@.len() == 0,
        },
{
    if tokens.len() < 2 {
        return None;
    }
    let first = &tokens[0];
    if first.as_str().unicode_len() == 0 {
        return None;
    }
    let initial = first.as_str().substring_char(0, 1);
    let mut head = initial.to_owned();
    head.append(".");
    proof {
        assert(head@ =~= seq![tokens@[0]@[0], '.']) by {
            reveal_strlit(".");
            assert(head@[0] == tokens@[0]@.subrange(0, 1)[0]);
        }
    }
    let mut ab: Vec<String> = Vec::new();
    ab.push(head);
    let mut q: usize = 1;
    while q < tokens.len()
        invariant
            1 <= q <= tokens@.len(),
            ab@.len() == q,
            ab@[0]@ == seq![tokens@[0]@[0], '.'],
            forall|z: int| 1 <= z < q ==> (#[trigger] ab@[z])@ == tokens@[z]@,
        decreases tokens@.len() - q,
    {
        ab.push(tokens[q].clone());
        q += 1;
    }
    Some(ab)
}

/// Whether some token of the phrase stands in the stoplist.
fn hits_stoplist(tokens: &Vec<String>, stop: &Vec<String>) -> (r: bool)
    ensures
        r == exists|q: int, z: int|
            0 <= q < tokens@.len() && 0 <= z < stop@.len() && (#[trigger] tokens@[q])@ == (
            #[trigger] stop@[z])@,
{
    let mut q: usize = 0;
    while q < tokens.len()
        invariant
            q <= tokens@.len(),
            forall|qq: int, z: int|
                0 <= qq < q && 0 <= z < stop@.len() ==> (#[trigger] tokens@[qq])@ != (
                #[trigger] stop@[z])@,
        decreases tokens@.len() - q,
    {
        let mut z: usize = 0;
        while z < stop.len()
            invariant
                q < tokens@.len(),
                z <= stop@.len(),
                forall|zz: int| 0 <= zz < z ==> (#[trigger] stop@[zz])@ != tokens@[q as int]@,
            decreases stop@.len() - z,
        {
            if str_cmp(tokens[q].as_str(), stop[z].as_str()) == 0 {
                return true;
            }
            z += 1;
        }
        q += 1;
    }
    false
}

/// The trie `t` answers for every indexed line before `upto`: the line's
/// lower-cased phrase path carries a non-empty identifier.
pub open spec fn lines_loaded(
    t: crate::tree::StringTree,
    lines: Seq<String>,
    upto: int,
    stop: Seq<Seq<char>>,
) -> bool {
    forall|li: int|
        0 <= li < upto && line_indexed((#[trigger] lines[li])@, stop) ==> uri_at(
            t,
            line_path(lines[li]@),
        ).len() > 0
}

/// An insert step (first write wins) keeps every line already answered
/// answered.
proof fn lemma_lines_loaded_preserved(
    pre: crate::tree::StringTree,
    post: crate::tree::StringTree,
    lines: Seq<String>,
    upto: int,
    stop: Seq<Seq<char>>,
    path: Seq<Seq<char>>,
)
    requires
        lines_loaded(pre, lines, upto, stop),
        uri_at(pre, path).len() > 0 ==> uri_at(post, path) == uri_at(pre, path),
        forall|p: Seq<Seq<char>>| p != path ==> #[trigger] uri_at(post, p) == uri_at(pre, p),
    ensures
        lines_loaded(post, lines, upto, stop),
{
    assert forall|li: int|
        0 <= li < upto && line_indexed((#[trigger] lines[li])@, stop) implies uri_at(
        post,
        line_path(lines[li]@),
    ).len() > 0 by {
        let lp = line_path(lines[li]@);
        if lp != path {
            assert(uri_at(post, lp) == uri_at(pre, lp));
        }
    }
}

impl SearchTree {
    /// Loads one corpus, given as its lines: each well-formed line's phrase
    /// is tokenized and inserted with its identifier (first write wins),
    /// optionally with its n-grams and its abbreviated variant under the
    /// same identifier; phrases with a stop-listed token are dropped; every
    /// inserted phrase's tokens join the deletion index vocabulary. Returns
    /// how many insertions were made and how many were skipped as
    /// duplicates (each saturating). Afterwards every indexed line's phrase
    /// is queryable, and no identifier already stored has changed.
    pub fn load(
        &mut self,
        lines: &Vec<String>,
        generate_ngrams: bool,
        generate_abbrv: bool,
        filter_list: Option<&Vec<String>>,
    ) -> (counts: (usize, usize))
        requires
            wf(old(self).tree),
            wf_index(old(self).index),
        ensures
            wf(final(self).tree),
            wf_index(final(self).index),
            final(self).index.max_deletes == old(self).index.max_deletes,
            forall|p: Seq<Seq<char>>|
                (#[trigger] uri_at(old(self).tree, p)).len() > 0 ==> uri_at(final(self).tree, p)
                    == uri_at(old(self).tree, p),
            lines_loaded(final(self).tree, lines@, lines@.len() as int, stop_view(filter_list)),
    {
        let ghost stop = stop_view(filter_list);
        let mut inserted: usize = 0;
        let mut skipped: usize = 0;
        let mut li: usize = 0;
        while li < lines.len()
            invariant
                li <= lines@.len(),
                wf(self.tree),
                wf_index(self.index),
                self.index.max_deletes == old(self).index.max_deletes,
                stop == stop_view(filter_list),
                forall|p: Seq<Seq<char>>|
                    (#[trigger] uri_at(old(self).tree, p)).len() > 0 ==> uri_at(self.tree, p)
                        == uri_at(old(self).tree, p),
                lines_loaded(self.tree, lines@, li as int, stop),
            decreases lines@.len() - li,
        {
            let ghost line_v = lines@[li as int]@;
            match parse_line(lines[li].as_str()) {
                None => {
                    proof {
                        assert(!line_indexed(line_v, stop));
                        assert(lines_loaded(self.tree, lines@, li + 1, stop));
                    }
                },
                Some((phrase, uri)) => {
                    proof {
                        assert(phrase@ == spec_parse(line_v)->Some_0.0);
                        assert(uri@ == spec_parse(line_v)->Some_0.1);
                    }
                    if uri.as_str().is_empty() {
                        proof {
                            assert(!line_indexed(line_v, stop));
                            assert(lines_loaded(self.tree, lines@, li + 1, stop));
                        }
                        li += 1;
                        continue ;
                    }
                    proof {
                        assert(uri@.len() > 0);
                    }
                    let toks = tokenize(phrase.as_str());
                    let mut words: Vec<String> = Vec::new();
                    let mut ti: usize = 0;
                    while ti < toks.len()
                        invariant
                            ti <= toks@.len(),
                            words@.len() == ti,
                            forall|j: int|
                                0 <= j < ti ==> (#[trigger] words@[j])@ == toks@[j].text@,
                        decreases toks@.len() - ti,
                    {
                        words.push(toks[ti].text.clone());
                        ti += 1;
                    }
                    proof {
                        assert(words.deep_view() =~= crate::text::token_texts(phrase@)) by {
                            assert forall|j: int|
                                0 <= j < words@.len() implies words.deep_view()[j]
                                == crate::text::token_texts(phrase@)[j] by {
                                assert(toks@[j].span() == crate::text::spec_tokens(phrase@)[j]);
                                assert(toks@[j].text@ == phrase@.subrange(
                                    crate::text::spec_tokens(phrase@)[j].0,
                                    crate::text::spec_tokens(phrase@)[j].1,
                                ));
                            }
                        }
                        assert(line_path(line_v) == lowered(words.deep_view()));
                    }
                    let dropped = match filter_list {
                        Some(stopv) => hits_stoplist(&words, stopv),
                        None => false,
                    };
                    proof {
                        assert(dropped == stop_hit(words.deep_view(), stop)) by {
                            match filter_list {
                                Some(stopv) => {
                                    if dropped {
                                        let (q, z) = choose|q: int, z: int|
                                            0 <= q < words@.len() && 0 <= z < stopv@.len() && (
                                            #[trigger] words@[q])@ == (#[trigger] stopv@[z])@;
                                        assert(words.deep_view()[q] == stopv.deep_view()[z]);
                                        assert(stop_hit(words.deep_view(), stop));
                                    }
                                    if stop_hit(words.deep_view(), stop) {
                                        let (q, z) = choose|q: int, z: int|
                                            0 <= q < words.deep_view().len() && 0 <= z
                                                < stop.len() && #[trigger] words.deep_view()[q]
                                                == #[trigger] stop[z];
                                        assert((words@[q])@ == (stopv@[z])@);
                                        assert(dropped);
                                    }
                                },
                                None => {
                                    if stop_hit(words.deep_view(), stop) {
                                        let (q, z) = choose|q: int, z: int|
                                            0 <= q < words.deep_view().len() && 0 <= z
                                                < stop.len() && #[trigger] words.deep_view()[q]
                                                == #[trigger] stop[z];
                                    }
                                },
                            }
                        }
                    }
                    if !dropped && words.len() > 0 {
                        let ghost cur_path = lowered(words.deep_view());
                        let ghost pre_tree = self.tree;
                        let ok = self.tree.insert(&words, uri.clone());
                        if ok {
                            if inserted < usize::MAX {
                                inserted += 1;
                            }
                        } else {
                            if skipped < usize::MAX {
                                skipped += 1;
                            }
                        }
                        proof {
                            lemma_no_overwrite(old(self).tree, pre_tree, self.tree, cur_path);
                            lemma_lines_loaded_preserved(
                                pre_tree,
                                self.tree,
                                lines@,
                                li as int,
                                stop,
                                cur_path,
                            );
                            assert(uri_at(self.tree, cur_path).len() > 0);
                        }
                        let ghost tree_snap = self.tree;
                        let mut wi: usize = 0;
                        while wi < words.len()
                            invariant
                                wi <= words@.len(),
                                wf_index(self.index),
                                self.index.max_deletes == old(self).index.max_deletes,
                                self.tree == tree_snap,
                            decreases words@.len() - wi,
                        {
                            self.index.insert_token(&words[wi]);
                            wi += 1;
                        }
                        if generate_ngrams {
                            let grams = ngrams_of(&words);
                            let mut gi: usize = 0;
                            while gi < grams.len()
                                invariant
                                    gi <= grams@.len(),
                                    wf(self.tree),
                                    wf_index(self.index),
                                    self.index.max_deletes == old(self).index.max_deletes,
                                    uri@.len() > 0,
                                    stop == stop_view(filter_list),
                                    forall|p: Seq<Seq<char>>|
                                        (#[trigger] uri_at(old(self).tree, p)).len() > 0 ==> uri_at(
                                            self.tree,
                                            p,
                                        ) == uri_at(old(self).tree, p),
                                    lines_loaded(self.tree, lines@, li as int, stop),
                                    uri_at(self.tree, cur_path).len() > 0,
                                    forall|g: int|
                                        0 <= g < grams@.len() ==> 2 <= (#[trigger] grams@[g])@.len(),
                                decreases grams@.len() - gi,
                            {
                                let ghost pre_tree2 = self.tree;
                                let ghost gpath = crate::text::lowered(
                                    grams@[gi as int].deep_view(),
                                );
                                let ok2 = self.tree.insert(&grams[gi], uri.clone());
                                proof {
                                    lemma_no_overwrite(
                                        old(self).tree,
                                        pre_tree2,
                                        self.tree,
                                        gpath,
                                    );
                                    lemma_lines_loaded_preserved(
                                        pre_tree2,
                                        self.tree,
                                        lines@,
                                        li as int,
                                        stop,
                                        gpath,
                                    );
                                    assert(uri_at(self.tree, cur_path).len() > 0) by {
                                        if cur_path != gpath {
                                            assert(uri_at(self.tree, cur_path) == uri_at(
                                                pre_tree2,
                                                cur_path,
                                            ));
                                        }
                                    }
                                }
                                if ok2 {
                                    if inserted < usize::MAX {
                                        inserted += 1;
                                    }
                                } else {
                                    if skipped < usize::MAX {
                                        skipped += 1;
                                    }
                                }
                                gi += 1;
                            }
                        }
                        if generate_abbrv {
                            if let Some(ab) = abbreviate(&words) {
                                let ghost pre_tree3 = self.tree;
                                let ghost apath = crate::text::lowered(ab.deep_view());
                                let ok3 = self.tree.insert(&ab, uri.clone());
                                proof {
                                    lemma_no_overwrite(
                                        old(self).tree,
                                        pre_tree3,
                                        self.tree,
                                        apath,
                                    );
                                    lemma_lines_loaded_preserved(
                                        pre_tree3,
                                        self.tree,
                                        lines@,
                                        li as int,
                                        stop,
                                        apath,
                                    );
                                    assert(uri_at(self.tree, cur_path).len() > 0) by {
                                        if cur_path != apath {
                                            assert(uri_at(self.tree, cur_path) == uri_at(
                                                pre_tree3,
                                                cur_path,
                                            ));
                                        }
                                    }
                                }
                                if ok3 {
                                    if inserted < usize::MAX {
                                        inserted += 1;
                                    }
                                } else {
                                    if skipped < usize::MAX {
                                        skipped += 1;
                                    }
                                }
                            }
                        }
                        proof {
                            assert(line_indexed(line_v, stop) ==> uri_at(
                                self.tree,
                                line_path(line_v),
                            ).len() > 0);
                            assert(lines_loaded(self.tree, lines@, li + 1, stop)) by {
                                assert forall|li2: int|
                                    0 <= li2 < li + 1 && line_indexed(
                                        (#[trigger] lines@[li2])@,
                                        stop,
                                    ) implies uri_at(
                                    self.tree,
                                    line_path(lines@[li2]@),
                                ).len() > 0 by {
                                    if li2 == li as int {
                                        assert(lines@[li2]@ == line_v);
                                    }
                                }
                            }
                        }
                    } else {
                        proof {
                            assert(!line_indexed(line_v, stop)) by {
                                if dropped {
                                    assert(stop_hit(
                                        crate::text::token_texts(phrase@),
                                        stop,
                                    ));
                                } else {
                                    assert(crate::text::token_texts(phrase@).len() == 0);
                                }
                            }
                            assert(lines_loaded(self.tree, lines@, li + 1, stop));
                        }
                    }
                },
            }
            li += 1;
        }
        (inserted, skipped)
    }
}

/// First write wins, so no stored identifier is ever changed: one insert
/// step keeps every identifier that was already set before the whole load.
proof fn lemma_no_overwrite(
    base: crate::tree::StringTree,
    pre: crate::tree::StringTree,
    post: crate::tree::StringTree,
    path: Seq<Seq<char>>,
)
    requires
        forall|p: Seq<Seq<char>>|
            (#[trigger] uri_at(base, p)).len() > 0 ==> uri_at(pre, p) == uri_at(base, p),
        uri_at(pre, path).len() > 0 ==> uri_at(post, path) == uri_at(pre, path),
        forall|p: Seq<Seq<char>>| p != path ==> #[trigger] uri_at(post, p) == uri_at(pre, p),
    ensures
        forall|p: Seq<Seq<char>>|
            (#[trigger] uri_at(base, p)).len() > 0 ==> uri_at(post, p) == uri_at(base, p),
{
    assert forall|p: Seq<Seq<char>>| (#[trigger] uri_at(base, p)).len() > 0 implies uri_at(
        post,
        p,
    ) == uri_at(base, p) by {
        if p == path {
            assert(uri_at(pre, p) == uri_at(base, p));
        } else {
            assert(uri_at(post, p) == uri_at(pre, p));
        }
    }
}

} // verus!
