//! The deletion index: the fuzzy layer. For every vocabulary token, every
//! string obtainable by deleting up to `max_deletes` characters is recorded
//! as a key mapping back to the token. Looking an observed token up against
//! the same bound recovers vocabulary tokens within a bounded edit distance
//! without computing edit distances against the whole vocabulary.

use vstd::prelude::*;

use crate::text::{lex_lt, str_cmp, lemma_lex_trichotomy, lemma_lex_transitive};

verus! {

/// `b` is obtained from `a` by deleting exactly `k` characters.
pub open spec fn is_del(a: Seq<char>, b: Seq<char>, k: nat) -> bool
    decreases k,
{
    if k == 0 {
        a == b
    } else {
        exists|i: int| 0 <= i < a.len() && is_del(a.remove(i), b, (k - 1) as nat)
    }
}

/// Deleting `k` characters shortens a string by exactly `k`.
pub proof fn lemma_is_del_len(a: Seq<char>, b: Seq<char>, k: nat)
    requires
        is_del(a, b, k),
    ensures
        b.len() == a.len() - k,
        k <= a.len(),
    decreases k,
{
    if k > 0 {
        let i = choose|i: int| 0 <= i < a.len() && is_del(a.remove(i), b, (k - 1) as nat);
        lemma_is_del_len(a.remove(i), b, (k - 1) as nat);
    }
}

/// The deletion-variant map: keys are deletion variants, strictly sorted;
/// each key maps to the original tokens that produce it.
pub struct DeletionIndex {
    pub entries: Vec<(String, Vec<String>)>,
    pub max_deletes: usize,
}

/// Keys are strictly sorted: no two entries share a variant.
pub open spec fn entries_sorted(es: Seq<(String, Vec<String>)>) -> bool {
    forall|i: int, j: int|
        0 <= i < j < es.len() ==> lex_lt((#[trigger] es[i]).0@, (#[trigger] es[j]).0@)
}

/// Well-formedness of the index.
pub open spec fn wf_index(idx: DeletionIndex) -> bool {
    entries_sorted(idx.entries@)
}

/// The map relation: variant `v` maps to original token `o`.
pub open spec fn idx_maps(idx: DeletionIndex, v: Seq<char>, o: Seq<char>) -> bool {
    exists|i: int|
        0 <= i < idx.entries@.len() && (#[trigger] idx.entries@[i]).0@ == v
            && idx.entries@[i].1.deep_view().contains(o)
}

/// A candidate record: looking `w` up yields `o` at distance `d` because some
/// variant `v` of `w` (within the bound) is a key mapping to `o`, and `d` is
/// the larger of the deletions applied on either side.
pub open spec fn fuzzy_witness(idx: DeletionIndex, w: Seq<char>, o: Seq<char>, d: int) -> bool {
    exists|v: Seq<char>, kq: int|
        0 <= kq <= idx.max_deletes && #[trigger] is_del(w, v, kq as nat) && #[trigger] idx_maps(
            idx,
            v,
            o,
        ) && d == vstd::math::max(kq, o.len() - v.len())
}

/// `o` is recalled at all when looking `w` up.
pub open spec fn fuzzy_related(idx: DeletionIndex, w: Seq<char>, o: Seq<char>) -> bool {
    exists|d: int| fuzzy_witness(idx, w, o, d)
}

/// The smallest distance at which looking `w` up recalls `o`: what the
/// candidate list reports for `o`.
pub open spec fn min_fuzzy_dist(idx: DeletionIndex, w: Seq<char>, o: Seq<char>) -> int {
    choose|d: int|
        fuzzy_witness(idx, w, o, d) && (forall|d2: int|
            fuzzy_witness(idx, w, o, d2) ==> d <= d2)
}

/// A distance that is a witness and a lower bound of all witnesses is the
/// minimum.
#[verifier::rlimit(100)]
pub proof fn lemma_min_fuzzy_is(idx: DeletionIndex, w: Seq<char>, o: Seq<char>, d: int)
    requires
        fuzzy_witness(idx, w, o, d),
        forall|d2: int| fuzzy_witness(idx, w, o, d2) ==> d <= d2,
    ensures
        min_fuzzy_dist(idx, w, o) == d,
{
    let m = min_fuzzy_dist(idx, w, o);
    assert(fuzzy_witness(idx, w, o, m) && (forall|d2: int|
        fuzzy_witness(idx, w, o, d2) ==> m <= d2)) by {
        assert(fuzzy_witness(idx, w, o, d) && (forall|d2: int|
            fuzzy_witness(idx, w, o, d2) ==> d <= d2));
    }
    assert(m <= d);
    assert(d <= m);
}

/// The candidate list `cs` covers `o` within distance `d`.
pub open spec fn covers(cs: Seq<(String, usize)>, o: Seq<char>, d: int) -> bool {
    exists|i: int| 0 <= i < cs.len() && (#[trigger] cs[i]).0@ == o && cs[i].1 <= d
}

/// Removes the character at (character) position `i`.
fn remove_char(s: &str, i: usize) -> (r: String)
    requires
        i < s@.len(),
    ensures
        r@ == s@.remove(i as int),
{
    let n = s.unicode_len();
    let a = s.substring_char(0, i);
    let b = s.substring_char(i + 1, n);
    let mut r = a.to_owned();
    r.append(b);
    proof {
        assert(r@ =~= s@.remove(i as int));
    }
    r
}

/// All strings obtained from `s` by deleting exactly `k` characters, with
/// every such string present (duplicates allowed).
fn dels_exact(s: &String, k: usize) -> (out: Vec<String>)
    ensures
        forall|i: int| 0 <= i < out@.len() ==> is_del(s@, (#[trigger] out@[i])@, k as nat),
        forall|b: Seq<char>|
            is_del(s@, b, k as nat) ==> exists|i: int|
                0 <= i < out@.len() && (#[trigger] out@[i])@ == b,
    decreases k,
{
    let mut out: Vec<String> = Vec::new();
    if k == 0 {
        out.push(s.clone());
        proof {
            assert forall|b: Seq<char>| is_del(s@, b, 0nat) implies exists|i: int|
                0 <= i < out@.len() && (#[trigger] out@[i])@ == b by {
                assert(out@[0]@ == b);
            }
        }
    } else {
        let n = s.as_str().unicode_len();
        let mut i: usize = 0;
        while i < n
            invariant
                i <= n,
                n == s@.len(),
                k >= 1,
                forall|m: int| 0 <= m < out@.len() ==> is_del(s@, (#[trigger] out@[m])@, k as nat),
                forall|b: Seq<char>, ii: int|
                    0 <= ii < i && #[trigger] is_del(s@.remove(ii), b, (k - 1) as nat)
                        ==> exists|m: int| 0 <= m < out@.len() && (#[trigger] out@[m])@ == b,
            decreases n - i,
        {
            let t = remove_char(s.as_str(), i);
            let mut sub = dels_exact(&t, k - 1);
            let ghost old_out = out@;
            let ghost subv = sub@;
            out.append(&mut sub);
            proof {
                assert(out@ =~= old_out + subv);
                assert forall|m: int| 0 <= m < out@.len() implies is_del(
                    s@,
                    (#[trigger] out@[m])@,
                    k as nat,
                ) by {
                    if m >= old_out.len() {
                        assert(out@[m] == subv[m - old_out.len()]);
                        assert(is_del(t@, out@[m]@, (k - 1) as nat));
                        assert(is_del(s@.remove(i as int), out@[m]@, (k - 1) as nat));
                    } else {
                        assert(out@[m] == old_out[m]);
                    }
                }
                assert forall|b: Seq<char>, ii: int|
                    0 <= ii < i + 1 && #[trigger] is_del(s@.remove(ii), b, (k - 1) as nat) implies
                    exists|m: int| 0 <= m < out@.len() && (#[trigger] out@[m])@ == b by {
                    if ii < i {
                        let m = choose|m: int|
                            0 <= m < old_out.len() && (#[trigger] old_out[m])@ == b;
                        assert(out@[m]@ == b);
                    } else {
                        assert(is_del(t@, b, (k - 1) as nat));
                        let m = choose|m: int| 0 <= m < subv.len() && (#[trigger] subv[m])@ == b;
                        assert(out@[old_out.len() + m]@ == b);
                    }
                }
            }
            i += 1;
        }
        proof {
            assert forall|b: Seq<char>| is_del(s@, b, k as nat) implies exists|m: int|
                0 <= m < out@.len() && (#[trigger] out@[m])@ == b by {
                let ii = choose|ii: int|
                    0 <= ii < s@.len() && is_del(s@.remove(ii), b, (k - 1) as nat);
                assert(is_del(s@.remove(ii), b, (k - 1) as nat));
            }
        }
    }
    out
}

/// Binary search over the sorted entry list: the index whose key is `v`, or
/// the insertion point with `v` absent from every key.
fn search_entries(es: &Vec<(String, Vec<String>)>, v: &str) -> (r: Result<usize, usize>)
    requires
        entries_sorted(es@),
    ensures
        match r {
            Ok(i) => i < es@.len() && es@[i as int].0@ == v@,
            Err(i) => i <= es@.len() && (forall|j: int|
                0 <= j < es@.len() ==> (#[trigger] es@[j]).0@ != v@) && (forall|j: int|
                0 <= j < i ==> lex_lt((#[trigger] es@[j]).0@, v@)) && (forall|j: int|
                i <= j < es@.len() ==> lex_lt(v@, (#[trigger] es@[j]).0@)),
        },
{
    let mut lo: usize = 0;
    let mut hi: usize = es.len();
    while lo < hi
        invariant
            lo <= hi <= es@.len(),
            entries_sorted(es@),
            forall|j: int| 0 <= j < lo ==> lex_lt((#[trigger] es@[j]).0@, v@),
            forall|j: int| hi <= j < es@.len() ==> lex_lt(v@, (#[trigger] es@[j]).0@),
        decreases hi - lo,
    {
        let mid = lo + (hi - lo) / 2;
        let c = str_cmp(es[mid].0.as_str(), v);
        if c == 0 {
            return Ok(mid);
        } else if c == -1 {
            proof {
                assert forall|j: int| 0 <= j <= mid implies lex_lt(
                    (#[trigger] es@[j]).0@,
                    v@,
                ) by {
                    if j < mid {
                        lemma_lex_transitive(es@[j].0@, es@[mid as int].0@, v@);
                    }
                }
            }
            lo = mid + 1;
        } else {
            proof {
                assert forall|j: int| mid <= j < es@.len() implies lex_lt(
                    v@,
                    (#[trigger] es@[j]).0@,
                ) by {
                    if j > mid {
                        lemma_lex_transitive(v@, es@[mid as int].0@, es@[j].0@);
                    }
                }
            }
            hi = mid;
        }
    }
    proof {
        assert forall|j: int| 0 <= j < es@.len() implies (#[trigger] es@[j]).0@ != v@ by {
            if j < lo {
                lemma_lex_trichotomy(es@[j].0@, v@);
            } else {
                lemma_lex_trichotomy(v@, es@[j].0@);
            }
        }
    }
    Err(lo)
}

impl DeletionIndex {
    /// An empty index for the given deletion bound: it maps nothing.
    pub fn new(max_deletes: usize) -> (idx: DeletionIndex)
        ensures
            wf_index(idx),
            idx.max_deletes == max_deletes,
            forall|v: Seq<char>, o: Seq<char>| !(#[trigger] idx_maps(idx, v, o)),
    {
        DeletionIndex { entries: Vec::new(), max_deletes }
    }

    /// Records that variant `v` maps to original token `o`.
    fn add_pair(&mut self, v: String, o: &String)
        requires
            wf_index(*old(self)),
        ensures
            wf_index(*final(self)),
            final(self).max_deletes == old(self).max_deletes,
            idx_maps(*final(self), v@, o@),
            forall|v2: Seq<char>, o2: Seq<char>|
                #[trigger] idx_maps(*final(self), v2, o2) <==> (idx_maps(*old(self), v2, o2) || (v2
                    == v@ && o2 == o@)),
    {
        let ghost old_es = self.entries@;
        match search_entries(&self.entries, v.as_str()) {
            Ok(i) => {
                let mut e = self.entries.remove(i);
                let ghost old_e = e;
                e.1.push(o.clone());
                self.entries.insert(i, e);
                proof {
                    let es = self.entries@;
                    assert(es =~= old_es.update(i as int, e));
                    assert(e.1.deep_view() =~= old_e.1.deep_view().push(o@));
                    assert forall|a: int, b: int| 0 <= a < b < es.len() implies lex_lt(
                        (#[trigger] es[a]).0@,
                        (#[trigger] es[b]).0@,
                    ) by {
                        assert(es[a].0@ == old_es[a].0@);
                        assert(es[b].0@ == old_es[b].0@);
                    }
                    assert(idx_maps(*self, v@, o@)) by {
                        assert(es[i as int].0@ == v@);
                        assert(es[i as int].1.deep_view()[old_e.1.deep_view().len() as int] == o@);
                        assert(es[i as int].1.deep_view().contains(o@));
                    }
                    assert forall|v2: Seq<char>, o2: Seq<char>| #[trigger] idx_maps(*self, v2, o2)
                        <==> (idx_maps(*old(self), v2, o2) || (v2 == v@ && o2 == o@)) by {
                        if idx_maps(*self, v2, o2) {
                            let m = choose|m: int|
                                0 <= m < es.len() && (#[trigger] es[m]).0@ == v2
                                    && es[m].1.deep_view().contains(o2);
                            if m == i as int {
                                let j = choose|j: int|
                                    0 <= j < e.1.deep_view().len() && e.1.deep_view()[j] == o2;
                                if j < old_e.1.deep_view().len() {
                                    assert(old_es[m].1.deep_view().contains(o2));
                                    assert(idx_maps(*old(self), v2, o2));
                                } else {
                                    assert(o2 == o@ && v2 == v@);
                                }
                            } else {
                                assert(es[m] == old_es[m]);
                                assert(idx_maps(*old(self), v2, o2));
                            }
                        }
                        if idx_maps(*old(self), v2, o2) {
                            let m = choose|m: int|
                                0 <= m < old_es.len() && (#[trigger] old_es[m]).0@ == v2
                                    && old_es[m].1.deep_view().contains(o2);
                            if m == i as int {
                                let j = choose|j: int|
                                    0 <= j < old_e.1.deep_view().len() && old_e.1.deep_view()[j]
                                        == o2;
                                assert(es[m].1.deep_view()[j] == o2);
                                assert(es[m].1.deep_view().contains(o2));
                                assert(idx_maps(*self, v2, o2));
                            } else {
                                assert(es[m] == old_es[m]);
                                assert(idx_maps(*self, v2, o2));
                            }
                        }
                        if v2 == v@ && o2 == o@ {
                            assert(idx_maps(*self, v2, o2));
                        }
                    }
                }
            },
            Err(i) => {
                let mut l: Vec<String> = Vec::new();
                l.push(o.clone());
                let ghost vv = v@;
                let e = (v, l);
                self.entries.insert(i, e);
                proof {
                    let es = self.entries@;
                    assert(es =~= old_es.insert(i as int, e));
                    assert(e.0@ == vv);
                    assert forall|m: int| 0 <= m < es.len() implies (#[trigger] es[m]) == (if m < i
                        as int {
                        old_es[m]
                    } else if m == i as int {
                        e
                    } else {
                        old_es[m - 1]
                    }) by {}
                    assert forall|a: int, b: int| 0 <= a < b < es.len() implies lex_lt(
                        (#[trigger] es[a]).0@,
                        (#[trigger] es[b]).0@,
                    ) by {
                        if a == i as int {
                            assert(lex_lt(vv, old_es[b - 1].0@));
                        } else if b == i as int {
                            assert(lex_lt(old_es[a].0@, vv));
                        } else if a < i as int && b > i as int {
                            lemma_lex_transitive(old_es[a].0@, vv, old_es[b - 1].0@);
                        }
                    }
                    assert(idx_maps(*self, vv, o@)) by {
                        assert(es[i as int].0@ == vv);
                        assert(es[i as int].1.deep_view()[0] == o@);
                        assert(es[i as int].1.deep_view().contains(o@));
                    }
                    assert forall|v2: Seq<char>, o2: Seq<char>| #[trigger] idx_maps(*self, v2, o2)
                        <==> (idx_maps(*old(self), v2, o2) || (v2 == vv && o2 == o@)) by {
                        if idx_maps(*self, v2, o2) {
                            let m = choose|m: int|
                                0 <= m < es.len() && (#[trigger] es[m]).0@ == v2
                                    && es[m].1.deep_view().contains(o2);
                            if m == i as int {
                                assert(v2 == vv);
                                let j = choose|j: int|
                                    0 <= j < e.1.deep_view().len() && e.1.deep_view()[j] == o2;
                                assert(j == 0);
                                assert(o2 == o@);
                            } else if m < i as int {
                                assert(es[m] == old_es[m]);
                                assert(idx_maps(*old(self), v2, o2));
                            } else {
                                assert(es[m] == old_es[m - 1]);
                                assert(idx_maps(*old(self), v2, o2));
                            }
                        }
                        if idx_maps(*old(self), v2, o2) {
                            let m = choose|m: int|
                                0 <= m < old_es.len() && (#[trigger] old_es[m]).0@ == v2
                                    && old_es[m].1.deep_view().contains(o2);
                            let m2 = if m < i as int {
                                m
                            } else {
                                m + 1
                            };
                            assert(es[m2] == old_es[m]);
                            assert(idx_maps(*self, v2, o2));
                        }
                        if v2 == vv && o2 == o@ {
                            assert(idx_maps(*self, v2, o2));
                        }
                    }
                }
            },
        }
    }
    /// Indexes one vocabulary token: every string obtained from it by
    /// deleting up to `max_deletes` characters becomes a key mapping to it.
    pub fn insert_token(&mut self, tok: &String)
        requires
            wf_index(*old(self)),
        ensures
            wf_index(*final(self)),
            final(self).max_deletes == old(self).max_deletes,
            forall|v2: Seq<char>, o2: Seq<char>|
                #[trigger] idx_maps(*final(self), v2, o2) <==> (idx_maps(*old(self), v2, o2) || (o2
                    == tok@ && exists|k: int|
                    0 <= k <= old(self).max_deletes && #[trigger] is_del(tok@, v2, k as nat))),
    {
        let mut k: usize = 0;
        loop
            invariant_except_break
                forall|v2: Seq<char>, o2: Seq<char>|
                    #[trigger] idx_maps(*self, v2, o2) <==> (idx_maps(*old(self), v2, o2) || (o2
                        == tok@ && exists|kk: int| 0 <= kk < k && #[trigger] is_del(tok@, v2, kk as nat))),
            invariant
                wf_index(*self),
                self.max_deletes == old(self).max_deletes,
                k <= self.max_deletes,
            ensures
                wf_index(*self),
                self.max_deletes == old(self).max_deletes,
                forall|v2: Seq<char>, o2: Seq<char>|
                    #[trigger] idx_maps(*self, v2, o2) <==> (idx_maps(*old(self), v2, o2) || (o2
                        == tok@ && exists|kk: int|
                        0 <= kk <= old(self).max_deletes && #[trigger] is_del(tok@, v2, kk as nat))),
            decreases self.max_deletes - k,
        {
            let vars = dels_exact(tok, k);
            let ghost entry_state = *self;
            let mut vi: usize = 0;
            while vi < vars.len()
                invariant
                    vi <= vars@.len(),
                    wf_index(*self),
                    self.max_deletes == entry_state.max_deletes,
                    forall|m: int|
                        0 <= m < vars@.len() ==> is_del(tok@, (#[trigger] vars@[m])@, k as nat),
                    forall|b: Seq<char>|
                        is_del(tok@, b, k as nat) ==> exists|m: int|
                            0 <= m < vars@.len() && (#[trigger] vars@[m])@ == b,
                    forall|v2: Seq<char>, o2: Seq<char>|
                        #[trigger] idx_maps(*self, v2, o2) <==> (idx_maps(entry_state, v2, o2) || (
                        o2 == tok@ && exists|m: int| 0 <= m < vi && (#[trigger] vars@[m])@ == v2)),
                decreases vars@.len() - vi,
            {
                let v = vars[vi].clone();
                self.add_pair(v, tok);
                vi += 1;
            }
            proof {
                assert(forall|v2: Seq<char>, o2: Seq<char>|
                    #[trigger] idx_maps(*self, v2, o2) <==> (idx_maps(entry_state, v2, o2) || (o2
                        == tok@ && exists|m: int|
                        0 <= m < vars@.len() && (#[trigger] vars@[m])@ == v2)));
                assert(forall|v2: Seq<char>, o2: Seq<char>|
                    #[trigger] idx_maps(entry_state, v2, o2) <==> (idx_maps(*old(self), v2, o2) || (
                    o2 == tok@ && exists|kk: int|
                        0 <= kk < k && #[trigger] is_del(tok@, v2, kk as nat))));
                assert forall|v2: Seq<char>, o2: Seq<char>| #[trigger] idx_maps(*self, v2, o2)
                    implies (idx_maps(*old(self), v2, o2) || (o2 == tok@ && exists|kk: int|
                    0 <= kk < k + 1 && #[trigger] is_del(tok@, v2, kk as nat))) by {
                    if idx_maps(entry_state, v2, o2) {
                        if !idx_maps(*old(self), v2, o2) {
                            assert(o2 == tok@);
                            let kk = choose|kk: int|
                                0 <= kk < k && #[trigger] is_del(tok@, v2, kk as nat);
                            assert(0 <= kk < k + 1 && is_del(tok@, v2, kk as nat));
                            assert(exists|kk: int|
                                0 <= kk < k + 1 && #[trigger] is_del(tok@, v2, kk as nat));
                        }
                    } else {
                        let m = choose|m: int| 0 <= m < vars@.len() && (#[trigger] vars@[m])@
                            == v2;
                        assert(is_del(tok@, vars@[m]@, k as nat));
                        let ghost ki: int = k as int;
                        assert(0 <= ki < k + 1 && is_del(tok@, v2, ki as nat));
                        assert(exists|kk: int|
                            0 <= kk < k + 1 && #[trigger] is_del(tok@, v2, kk as nat));
                        assert(o2 == tok@);
                    }
                }
                assert forall|v2: Seq<char>, o2: Seq<char>|
                    idx_maps(*old(self), v2, o2) || (o2 == tok@ && exists|kk: int|
                    0 <= kk < k + 1 && #[trigger] is_del(tok@, v2, kk as nat)) implies #[trigger] idx_maps(
                    *self,
                    v2,
                    o2,
                ) by {
                    if idx_maps(*old(self), v2, o2) {
                        assert(idx_maps(entry_state, v2, o2));
                        assert(idx_maps(*self, v2, o2));
                    }
                    if o2 == tok@ && exists|kk: int| 0 <= kk < k + 1 && #[trigger] is_del(
                        tok@,
                        v2,
                        kk as nat,
                    ) {
                        let kk = choose|kk: int| 0 <= kk < k + 1 && #[trigger] is_del(tok@, v2, kk as nat);
                        if kk == k {
                            assert(is_del(tok@, v2, k as nat));
                            let m = choose|m: int|
                                0 <= m < vars@.len() && (#[trigger] vars@[m])@ == v2;
                            assert(idx_maps(*self, v2, o2));
                        } else {
                            assert(0 <= kk < k && is_del(tok@, v2, kk as nat));
                            assert(idx_maps(entry_state, v2, o2));
                            assert(idx_maps(*self, v2, o2));
                        }
                    }
                }
            }
            if k == self.max_deletes {
                break ;
            }
            k += 1;
        }
    }

    /// Builds the index of a whole vocabulary under the given deletion bound:
    /// it maps `v` to `o` exactly when `o` is one of the tokens and `v` is a
    /// deletion variant of `o` within the bound.
    pub fn build(tokens: &Vec<String>, max_deletes: usize) -> (idx: DeletionIndex)
        ensures
            wf_index(idx),
            idx.max_deletes == max_deletes,
            forall|v: Seq<char>, o: Seq<char>|
                #[trigger] idx_maps(idx, v, o) <==> exists|m: int|
                    0 <= m < tokens@.len() && (#[trigger] tokens@[m])@ == o && (exists|k: int|
                        0 <= k <= max_deletes && #[trigger] is_del(o, v, k as nat)),
    {
        let mut idx = DeletionIndex::new(max_deletes);
        let mut m: usize = 0;
        while m < tokens.len()
            invariant
                m <= tokens@.len(),
                wf_index(idx),
                idx.max_deletes == max_deletes,
                forall|v: Seq<char>, o: Seq<char>|
                    #[trigger] idx_maps(idx, v, o) <==> exists|mm: int|
                        0 <= mm < m && (#[trigger] tokens@[mm])@ == o && (exists|k: int|
                            0 <= k <= max_deletes && #[trigger] is_del(o, v, k as nat)),
            decreases tokens@.len() - m,
        {
            let ghost prev = idx;
            idx.insert_token(&tokens[m]);
            proof {
                assert forall|v: Seq<char>, o: Seq<char>| #[trigger] idx_maps(idx, v, o)
                    <==> exists|mm: int|
                    0 <= mm < m + 1 && (#[trigger] tokens@[mm])@ == o && (exists|k: int|
                        0 <= k <= max_deletes && #[trigger] is_del(o, v, k as nat)) by {
                    if idx_maps(idx, v, o) {
                        if idx_maps(prev, v, o) {
                            let mm = choose|mm: int|
                                0 <= mm < m && (#[trigger] tokens@[mm])@ == o && (exists|k: int|
                                    0 <= k <= max_deletes && #[trigger] is_del(o, v, k as nat));
                            assert(tokens@[mm]@ == o);
                        } else {
                            assert(tokens@[m as int]@ == o);
                        }
                    }
                    if exists|mm: int|
                        0 <= mm < m + 1 && (#[trigger] tokens@[mm])@ == o && (exists|k: int|
                            0 <= k <= max_deletes && #[trigger] is_del(o, v, k as nat)) {
                        let mm = choose|mm: int|
                            0 <= mm < m + 1 && (#[trigger] tokens@[mm])@ == o && (exists|k: int|
                                0 <= k <= max_deletes && #[trigger] is_del(o, v, k as nat));
                        if mm < m {
                            assert(idx_maps(prev, v, o));
                        }
                        assert(idx_maps(idx, v, o));
                    }
                }
            }
            m += 1;
        }
        idx
    }
}

impl DeletionIndex {
    /// Looks one deletion variant `v` of the observed token up and records
    /// every original it maps to, at the distance the larger side gives.
    fn process_query(
        &self,
        cands: &mut Vec<(String, usize)>,
        v: &String,
        kq: usize,
        Ghost(obs): Ghost<Seq<char>>,
    )
        requires
            wf_index(*self),
            kq <= self.max_deletes,
            is_del(obs, v@, kq as nat),
            forall|i: int, j: int|
                0 <= i < j < old(cands)@.len() ==> (#[trigger] old(cands)@[i]).0@ != (#[trigger] old(
                    cands,
                )@[j]).0@,
            forall|i: int|
                0 <= i < old(cands)@.len() ==> fuzzy_witness(
                    *self,
                    obs,
                    (#[trigger] old(cands)@[i]).0@,
                    old(cands)@[i].1 as int,
                ),
        ensures
            forall|i: int, j: int|
                0 <= i < j < final(cands)@.len() ==> (#[trigger] final(cands)@[i]).0@ != (
                #[trigger] final(cands)@[j]).0@,
            forall|x: Seq<char>, dx: int|
                #[trigger] covers(old(cands)@, x, dx) ==> covers(final(cands)@, x, dx),
            forall|i: int|
                0 <= i < final(cands)@.len() ==> fuzzy_witness(
                    *self,
                    obs,
                    (#[trigger] final(cands)@[i]).0@,
                    final(cands)@[i].1 as int,
                ),
            forall|o: Seq<char>|
                #[trigger] idx_maps(*self, v@, o) ==> covers(
                    final(cands)@,
                    o,
                    vstd::math::max(kq as int, o.len() - v@.len()),
                ),
    {
        let vl = v.as_str().unicode_len();
        match search_entries(&self.entries, v.as_str()) {
            Err(_) => {
                proof {
                    assert forall|o: Seq<char>| #[trigger] idx_maps(*self, v@, o) implies covers(
                        cands@,
                        o,
                        vstd::math::max(kq as int, o.len() - v@.len()),
                    ) by {
                        let i = choose|i: int|
                            0 <= i < self.entries@.len() && (#[trigger] self.entries@[i]).0@ == v@
                                && self.entries@[i].1.deep_view().contains(o);
                        assert(false);
                    }
                }
            },
            Ok(e) => {
                let ghost es = self.entries@;
                let ghost entry_cands = cands@;
                let list_len = self.entries[e].1.len();
                let mut j: usize = 0;
                while j < list_len
                    invariant
                        j <= list_len,
                        wf_index(*self),
                        kq <= self.max_deletes,
                        is_del(obs, v@, kq as nat),
                        e < es.len(),
                        es == self.entries@,
                        es[e as int].0@ == v@,
                        list_len == es[e as int].1@.len(),
                        vl == v@.len(),
                        entry_cands == old(cands)@,
                        forall|a: int, b: int|
                            0 <= a < b < cands@.len() ==> (#[trigger] cands@[a]).0@ != (
                            #[trigger] cands@[b]).0@,
                        forall|x: Seq<char>, dx: int|
                            #[trigger] covers(entry_cands, x, dx) ==> covers(cands@, x, dx),
                        forall|i: int|
                            0 <= i < cands@.len() ==> fuzzy_witness(
                                *self,
                                obs,
                                (#[trigger] cands@[i]).0@,
                                cands@[i].1 as int,
                            ),
                        forall|jj: int|
                            0 <= jj < j ==> covers(
                                cands@,
                                (#[trigger] es[e as int].1@[jj])@,
                                vstd::math::max(
                                    kq as int,
                                    es[e as int].1@[jj]@.len() - v@.len(),
                                ),
                            ),
                    decreases list_len - j,
                {
                    let ghost pre_cands = cands@;
                    let o = &self.entries[e].1[j];
                    let ol = o.as_str().unicode_len();
                    let dd = if ol > vl {
                        ol - vl
                    } else {
                        0
                    };
                    let d = if kq > dd {
                        kq
                    } else {
                        dd
                    };
                    proof {
                        assert(d as int == vstd::math::max(kq as int, o@.len() - v@.len()));
                        assert(idx_maps(*self, v@, o@)) by {
                            assert(es[e as int].1.deep_view()[j as int] == o@);
                            assert(es[e as int].1.deep_view().contains(o@));
                        }
                        let ghost ki: int = kq as int;
                        assert(is_del(obs, v@, ki as nat));
                        assert(fuzzy_witness(*self, obs, o@, d as int));
                    }
                    merge_candidate(cands, o, d);
                    proof {
                        assert forall|i: int| 0 <= i < cands@.len() implies fuzzy_witness(
                            *self,
                            obs,
                            (#[trigger] cands@[i]).0@,
                            cands@[i].1 as int,
                        ) by {
                            if exists|jj: int|
                                0 <= jj < pre_cands.len() && #[trigger] pre_cands[jj]
                                    == cands@[i] {
                                let jj = choose|jj: int|
                                    0 <= jj < pre_cands.len() && #[trigger] pre_cands[jj]
                                        == cands@[i];
                                assert(fuzzy_witness(
                                    *self,
                                    obs,
                                    pre_cands[jj].0@,
                                    pre_cands[jj].1 as int,
                                ));
                            } else {
                                assert((cands@[i]).0@ == o@ && (cands@[i]).1 == d);
                            }
                        }
                        assert forall|jj: int| 0 <= jj < j + 1 implies covers(
                            cands@,
                            (#[trigger] es[e as int].1@[jj])@,
                            vstd::math::max(kq as int, es[e as int].1@[jj]@.len() - v@.len()),
                        ) by {
                            if jj < j {
                                assert(covers(
                                    pre_cands,
                                    es[e as int].1@[jj]@,
                                    vstd::math::max(
                                        kq as int,
                                        es[e as int].1@[jj]@.len() - v@.len(),
                                    ),
                                ));
                            } else {
                                assert(covers(cands@, o@, d as int));
                            }
                        }
                    }
                    j += 1;
                }
                proof {
                    assert forall|o: Seq<char>| #[trigger] idx_maps(*self, v@, o) implies covers(
                        cands@,
                        o,
                        vstd::math::max(kq as int, o.len() - v@.len()),
                    ) by {
                        let i = choose|i: int|
                            0 <= i < es.len() && (#[trigger] es[i]).0@ == v@
                                && es[i].1.deep_view().contains(o);
                        assert(i == e as int) by {
                            if i < e as int {
                                assert(lex_lt(es[i].0@, es[e as int].0@));
                                lemma_lex_trichotomy(es[i].0@, es[e as int].0@);
                            }
                            if i > e as int {
                                assert(lex_lt(es[e as int].0@, es[i].0@));
                                lemma_lex_trichotomy(es[e as int].0@, es[i].0@);
                            }
                        }
                        let jj = choose|jj: int|
                            0 <= jj < es[e as int].1.deep_view().len() && es[e as int].1.deep_view()[jj]
                                == o;
                        assert(es[e as int].1@[jj]@ == o);
                    }
                }
            },
        }
    }

    /// Looks an observed token up: every vocabulary token reachable through a
    /// shared deletion variant within the bound is reported once, with the
    /// smallest distance any shared variant yields.
    pub fn lookup(&self, observed: &String) -> (cands: Vec<(String, usize)>)
        requires
            wf_index(*self),
        ensures
            forall|i: int, j: int|
                0 <= i < j < cands@.len() ==> (#[trigger] cands@[i]).0@ != (#[trigger] cands@[j]).0@,
            forall|i: int|
                0 <= i < cands@.len() ==> fuzzy_witness(
                    *self,
                    observed@,
                    (#[trigger] cands@[i]).0@,
                    cands@[i].1 as int,
                ),
            forall|o: Seq<char>, d: int|
                #[trigger] fuzzy_witness(*self, observed@, o, d) ==> covers(cands@, o, d),
    {
        let mut cands: Vec<(String, usize)> = Vec::new();
        let mut kq: usize = 0;
        loop
            invariant_except_break
                forall|o: Seq<char>, vv: Seq<char>, kk: int|
                    0 <= kk < kq && #[trigger] is_del(observed@, vv, kk as nat) && #[trigger] idx_maps(
                        *self,
                        vv,
                        o,
                    ) ==> covers(cands@, o, vstd::math::max(kk, o.len() - vv.len())),
            invariant
                wf_index(*self),
                kq <= self.max_deletes,
                forall|i: int, j: int|
                    0 <= i < j < cands@.len() ==> (#[trigger] cands@[i]).0@ != (
                    #[trigger] cands@[j]).0@,
                forall|i: int|
                    0 <= i < cands@.len() ==> fuzzy_witness(
                        *self,
                        observed@,
                        (#[trigger] cands@[i]).0@,
                        cands@[i].1 as int,
                    ),
            ensures
                forall|i: int, j: int|
                    0 <= i < j < cands@.len() ==> (#[trigger] cands@[i]).0@ != (
                    #[trigger] cands@[j]).0@,
                forall|i: int|
                    0 <= i < cands@.len() ==> fuzzy_witness(
                        *self,
                        observed@,
                        (#[trigger] cands@[i]).0@,
                        cands@[i].1 as int,
                    ),
                forall|o: Seq<char>, vv: Seq<char>, kk: int|
                    0 <= kk <= self.max_deletes && #[trigger] is_del(observed@, vv, kk as nat)
                        && #[trigger] idx_maps(*self, vv, o) ==> covers(
                        cands@,
                        o,
                        vstd::math::max(kk, o.len() - vv.len()),
                    ),
            decreases self.max_deletes - kq,
        {
            let vars = dels_exact(observed, kq);
            let mut vi: usize = 0;
            while vi < vars.len()
                invariant
                    vi <= vars@.len(),
                    wf_index(*self),
                    kq <= self.max_deletes,
                    forall|m: int|
                        0 <= m < vars@.len() ==> is_del(
                            observed@,
                            (#[trigger] vars@[m])@,
                            kq as nat,
                        ),
                    forall|b: Seq<char>|
                        is_del(observed@, b, kq as nat) ==> exists|m: int|
                            0 <= m < vars@.len() && (#[trigger] vars@[m])@ == b,
                    forall|i: int, j: int|
                        0 <= i < j < cands@.len() ==> (#[trigger] cands@[i]).0@ != (
                        #[trigger] cands@[j]).0@,
                    forall|i: int|
                        0 <= i < cands@.len() ==> fuzzy_witness(
                            *self,
                            observed@,
                            (#[trigger] cands@[i]).0@,
                            cands@[i].1 as int,
                        ),
                    forall|o: Seq<char>, vv: Seq<char>, kk: int|
                        0 <= kk < kq && #[trigger] is_del(observed@, vv, kk as nat)
                            && #[trigger] idx_maps(*self, vv, o) ==> covers(
                            cands@,
                            o,
                            vstd::math::max(kk, o.len() - vv.len()),
                        ),
                    forall|o: Seq<char>, m: int|
                        0 <= m < vi && #[trigger] idx_maps(*self, (#[trigger] vars@[m])@, o)
                            ==> covers(
                            cands@,
                            o,
                            vstd::math::max(kq as int, o.len() - vars@[m]@.len()),
                        ),
                decreases vars@.len() - vi,
            {
                let v = &vars[vi];
                proof {
                    let ghost ki: int = kq as int;
                    assert(is_del(observed@, v@, ki as nat));
                }
                self.process_query(&mut cands, v, kq, Ghost(observed@));
                vi += 1;
            }
            proof {
                assert forall|o: Seq<char>, vv: Seq<char>, kk: int|
                    0 <= kk < kq + 1 && #[trigger] is_del(observed@, vv, kk as nat)
                        && #[trigger] idx_maps(*self, vv, o) implies covers(
                    cands@,
                    o,
                    vstd::math::max(kk, o.len() - vv.len()),
                ) by {
                    if kk == kq {
                        let m = choose|m: int| 0 <= m < vars@.len() && (#[trigger] vars@[m])@ == vv;
                        assert(idx_maps(*self, vars@[m]@, o));
                    }
                }
            }
            if kq == self.max_deletes {
                break ;
            }
            kq += 1;
        }
        cands
    }
}

/// Fuzzy recall: when the index was built over a vocabulary within a bound
/// of at least one and the observed token is a one-character-deleted
/// mutation of an indexed token, a lookup of the observed token reports that
/// token as a candidate with edit distance exactly one. The hypotheses are
/// what `build` ensures of the index and what `lookup` ensures of `cands`.
pub proof fn lemma_fuzzy_recall(
    idx: DeletionIndex,
    tokens: Seq<String>,
    tok: Seq<char>,
    obs: Seq<char>,
    cands: Seq<(String, usize)>,
)
    requires
        idx.max_deletes >= 1,
        forall|v: Seq<char>, o: Seq<char>|
            #[trigger] idx_maps(idx, v, o) <==> exists|m: int|
                0 <= m < tokens.len() && (#[trigger] tokens[m])@ == o && (exists|k: int|
                    0 <= k <= idx.max_deletes && #[trigger] is_del(o, v, k as nat)),
        exists|m: int| 0 <= m < tokens.len() && (#[trigger] tokens[m])@ == tok,
        is_del(tok, obs, 1),
        forall|i: int|
            0 <= i < cands.len() ==> fuzzy_witness(
                idx,
                obs,
                (#[trigger] cands[i]).0@,
                cands[i].1 as int,
            ),
        forall|o: Seq<char>, d: int| #[trigger] fuzzy_witness(idx, obs, o, d) ==> covers(
            cands,
            o,
            d,
        ),
    ensures
        exists|i: int| 0 <= i < cands.len() && (#[trigger] cands[i]).0@ == tok && cands[i].1 == 1,
{
    lemma_is_del_len(tok, obs, 1);
    assert(is_del(obs, obs, 0nat));
    assert(idx_maps(idx, obs, tok)) by {
        let m = choose|m: int| 0 <= m < tokens.len() && (#[trigger] tokens[m])@ == tok;
        let ghost one: int = 1;
        assert(0 <= one <= idx.max_deletes && is_del(tok, obs, one as nat));
        assert(exists|k: int| 0 <= k <= idx.max_deletes && #[trigger] is_del(tok, obs, k as nat));
    }
    let d1: int = vstd::math::max(0, tok.len() - obs.len());
    assert(d1 == 1);
    assert(fuzzy_witness(idx, obs, tok, 1)) by {
        let ghost z: int = 0;
        assert(0 <= z <= idx.max_deletes && is_del(obs, obs, z as nat) && idx_maps(idx, obs, tok));
        assert(1 == vstd::math::max(z, tok.len() - obs.len()));
    }
    assert(covers(cands, tok, 1));
    let i = choose|i: int| 0 <= i < cands.len() && (#[trigger] cands[i]).0@ == tok && cands[i].1
        <= 1;
    assert(cands[i].1 >= 1) by {
        assert(fuzzy_witness(idx, obs, tok, cands[i].1 as int));
        let (v, kq) = choose|v: Seq<char>, kq: int|
            0 <= kq <= idx.max_deletes && #[trigger] is_del(obs, v, kq as nat)
                && #[trigger] idx_maps(idx, v, tok) && cands[i].1 as int == vstd::math::max(
                kq,
                tok.len() - v.len(),
            );
        lemma_is_del_len(obs, v, kq as nat);
        if cands[i].1 as int == 0 {
            assert(kq == 0);
            assert(v == obs);
            assert(tok.len() - v.len() == 1);
        }
    }
    assert(cands[i].1 == 1);
}

/// Bounded recall: when the index was built within a bound of one, a
/// two-character-deleted mutation of a token does not recall that token: no
/// candidate the lookup reports is the token itself. The hypotheses are what
/// `build` ensures of the index and what `lookup` ensures of `cands`.
pub proof fn lemma_fuzzy_no_overreach(
    idx: DeletionIndex,
    tok: Seq<char>,
    obs: Seq<char>,
    cands: Seq<(String, usize)>,
)
    requires
        idx.max_deletes == 1,
        forall|v: Seq<char>, o: Seq<char>|
            #[trigger] idx_maps(idx, v, o) ==> exists|k: int|
                0 <= k <= idx.max_deletes && #[trigger] is_del(o, v, k as nat),
        is_del(tok, obs, 2),
        forall|i: int|
            0 <= i < cands.len() ==> fuzzy_witness(
                idx,
                obs,
                (#[trigger] cands[i]).0@,
                cands[i].1 as int,
            ),
    ensures
        forall|i: int| 0 <= i < cands.len() ==> (#[trigger] cands[i]).0@ != tok,
{
    lemma_is_del_len(tok, obs, 2);
    assert forall|i: int| 0 <= i < cands.len() implies (#[trigger] cands[i]).0@ != tok by {
        if cands[i].0@ == tok {
            assert(fuzzy_witness(idx, obs, tok, cands[i].1 as int));
            let (v, kq) = choose|v: Seq<char>, kq: int|
                0 <= kq <= idx.max_deletes && #[trigger] is_del(obs, v, kq as nat)
                    && #[trigger] idx_maps(idx, v, tok) && cands[i].1 as int == vstd::math::max(
                    kq,
                    tok.len() - v.len(),
                );
            lemma_is_del_len(obs, v, kq as nat);
            let kx = choose|kx: int|
                0 <= kx <= idx.max_deletes && #[trigger] is_del(tok, v, kx as nat);
            lemma_is_del_len(tok, v, kx as nat);
            assert(v.len() == obs.len() - kq);
            assert(v.len() == tok.len() - kx);
            assert(kx == 2 + kq);
            assert(false);
        }
    }
}

/// Keeps in `cands` the best (smallest) distance seen for each original:
/// records `(o, d)`, lowering an existing entry for `o` or appending one.
fn merge_candidate(cands: &mut Vec<(String, usize)>, o: &String, d: usize)
    requires
        forall|i: int, j: int|
            0 <= i < j < old(cands)@.len() ==> (#[trigger] old(cands)@[i]).0@ != (#[trigger] old(
                cands,
            )@[j]).0@,
    ensures
        forall|i: int, j: int|
            0 <= i < j < final(cands)@.len() ==> (#[trigger] final(cands)@[i]).0@ != (
            #[trigger] final(cands)@[j]).0@,
        covers(final(cands)@, o@, d as int),
        forall|x: Seq<char>, dx: int|
            #[trigger] covers(old(cands)@, x, dx) ==> covers(final(cands)@, x, dx),
        forall|i: int|
            0 <= i < final(cands)@.len() ==> (exists|j: int|
                0 <= j < old(cands)@.len() && #[trigger] old(cands)@[j] == final(cands)@[i]) || ((
            final(cands)@[i]).0@ == o@ && (final(cands)@[i]).1 == d),
{
    let ghost old_cs = cands@;
    let n = cands.len();
    let mut p: usize = 0;
    while p < n
        invariant
            p <= n,
            n == cands@.len(),
            cands@ == old_cs,
            old_cs == old(cands)@,
            forall|i: int, j: int|
                0 <= i < j < old(cands)@.len() ==> (#[trigger] old(cands)@[i]).0@ != (
                #[trigger] old(cands)@[j]).0@,
            forall|q: int| 0 <= q < p ==> (#[trigger] cands@[q]).0@ != o@,
        decreases n - p,
    {
        if str_cmp(cands[p].0.as_str(), o.as_str()) == 0 {
            if d < cands[p].1 {
                let mut c = cands.remove(p);
                c.1 = d;
                cands.insert(p, c);
                proof {
                    assert(cands@ =~= old_cs.update(p as int, c));
                    assert(c.0@ == o@);
                    assert(old_cs[p as int].0@ == o@);
                    assert forall|q: int| 0 <= q < cands@.len() implies (#[trigger] cands@[q]).0@
                        == old_cs[q].0@ by {}
                    assert forall|a: int, b: int| 0 <= a < b < cands@.len() implies (
                    #[trigger] cands@[a]).0@ != (#[trigger] cands@[b]).0@ by {
                        assert((old(cands)@[a]).0@ != (old(cands)@[b]).0@);
                        assert(old(cands)@[a] == old_cs[a]);
                        assert(old(cands)@[b] == old_cs[b]);
                        assert(cands@[a].0@ == old_cs[a].0@);
                        assert(cands@[b].0@ == old_cs[b].0@);
                    }
                    assert(covers(cands@, o@, d as int)) by {
                        assert(cands@[p as int].0@ == o@ && cands@[p as int].1 <= d);
                    }
                    assert forall|x: Seq<char>, dx: int| #[trigger] covers(old_cs, x, dx) implies
                        covers(cands@, x, dx) by {
                        let q = choose|q: int|
                            0 <= q < old_cs.len() && (#[trigger] old_cs[q]).0@ == x && old_cs[q].1
                                <= dx;
                        if q == p as int {
                            assert(cands@[q].0@ == x && cands@[q].1 <= dx);
                        } else {
                            assert(cands@[q] == old_cs[q]);
                            assert(cands@[q].0@ == x && cands@[q].1 <= dx);
                        }
                    }
                    assert forall|i: int| 0 <= i < cands@.len() implies (exists|j: int|
                        0 <= j < old_cs.len() && #[trigger] old_cs[j] == cands@[i]) || ((
                    cands@[i]).0@ == o@ && (cands@[i]).1 == d) by {
                        if i != p as int {
                            assert(old_cs[i] == cands@[i]);
                        }
                    }
                }
            } else {
                proof {
                    assert(covers(cands@, o@, d as int)) by {
                        assert(cands@[p as int].0@ == o@ && cands@[p as int].1 <= d);
                    }
                }
            }
            return ;
        }
        p += 1;
    }
    cands.push((o.clone(), d));
    proof {
        assert(cands@ =~= old_cs.push((cands@[old_cs.len() as int].0, d)));
        assert(covers(cands@, o@, d as int)) by {
            assert(cands@[old_cs.len() as int].0@ == o@);
        }
        assert forall|x: Seq<char>, dx: int| #[trigger] covers(old_cs, x, dx) implies covers(
            cands@,
            x,
            dx,
        ) by {
            let q = choose|q: int|
                0 <= q < old_cs.len() && (#[trigger] old_cs[q]).0@ == x && old_cs[q].1 <= dx;
            assert(cands@[q].0@ == x && cands@[q].1 <= dx);
        }
    }
}

} // verus!
