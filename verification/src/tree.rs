//! The phrase trie: a case-insensitive, ordered multi-way tree. Each
//! root-to-node path of token values is a phrase; a terminal node carries a
//! non-empty canonical identifier. Children of a node are kept strictly
//! sorted by their lower-cased value so membership uses binary search.

use vstd::prelude::*;

use crate::text::{lex_lt, lower_of, lowered, lowercase, str_cmp, lemma_lex_trichotomy, lemma_lex_transitive};

verus! {

/// One node of the phrase trie. `value` is the (lower-cased) token on the
/// edge from the parent; `uri` is the canonical identifier when this node is
/// terminal, or empty when the node is a pure path node.
pub struct StringTree {
    pub value: String,
    pub uri: String,
    pub children: Vec<StringTree>,
}

/// Children are strictly sorted by value: no two share a value.
pub open spec fn children_sorted(cs: Seq<StringTree>) -> bool {
    forall|i: int, j: int|
        0 <= i < j < cs.len() ==> lex_lt(
            (#[trigger] cs[i]).value@,
            (#[trigger] cs[j]).value@,
        )
}

/// Well-formedness of a trie node: its children are strictly sorted and
/// themselves well-formed, at every level.
pub open spec fn wf(t: StringTree) -> bool
    decreases t,
{
    &&& children_sorted(t.children@)
    &&& forall|i: int| 0 <= i < t.children@.len() ==> wf(#[trigger] t.children@[i])
}

/// The first index whose node carries the value `v`, if any.
pub open spec fn find_in(cs: Seq<StringTree>, v: Seq<char>) -> Option<int>
    decreases cs.len(),
{
    if cs.len() == 0 {
        None
    } else if cs[0].value@ == v {
        Some(0int)
    } else {
        match find_in(cs.drop_first(), v) {
            Some(i) => Some(i + 1),
            None => None,
        }
    }
}

/// The child node carrying the value `v`, if any.
pub open spec fn child_node(cs: Seq<StringTree>, v: Seq<char>) -> Option<StringTree> {
    match find_in(cs, v) {
        Some(i) => Some(cs[i]),
        None => None,
    }
}

/// `find_in` returns the first index with value `v`, or reports that none
/// carries it.
pub proof fn lemma_find_in(cs: Seq<StringTree>, v: Seq<char>)
    ensures
        match find_in(cs, v) {
            Some(i) => 0 <= i < cs.len() && cs[i].value@ == v && forall|j: int|
                0 <= j < i ==> (#[trigger] cs[j]).value@ != v,
            None => forall|j: int| 0 <= j < cs.len() ==> (#[trigger] cs[j]).value@ != v,
        },
    decreases cs.len(),
{
    if cs.len() > 0 && cs[0].value@ != v {
        lemma_find_in(cs.drop_first(), v);
        assert forall|j: int| 1 <= j < cs.len() implies (#[trigger] cs[j]).value@
            == cs.drop_first()[j - 1].value@ by {}
    }
}

/// In a sorted child list an index with value `v` is the one `find_in` gives.
pub proof fn lemma_find_in_at(cs: Seq<StringTree>, v: Seq<char>, i: int)
    requires
        children_sorted(cs),
        0 <= i < cs.len(),
        cs[i].value@ == v,
    ensures
        find_in(cs, v) == Some(i),
{
    lemma_find_in(cs, v);
    match find_in(cs, v) {
        Some(k) => {
            if k < i {
                assert(lex_lt(cs[k].value@, cs[i].value@));
                lemma_lex_trichotomy(cs[k].value@, cs[i].value@);
            }
            if k > i {
                assert(lex_lt(cs[i].value@, cs[k].value@));
                lemma_lex_trichotomy(cs[i].value@, cs[k].value@);
            }
        },
        None => {
            assert(cs[i].value@ == v);
        },
    }
}

/// The identifier stored at the node reached from `t` along `path`, or the
/// empty sequence when the path is absent or its node is not terminal. This
/// is the queryable content of the trie.
pub open spec fn uri_at(t: StringTree, path: Seq<Seq<char>>) -> Seq<char>
    decreases path.len(),
{
    if path.len() == 0 {
        t.uri@
    } else {
        match child_node(t.children@, path[0]) {
            Some(c) => uri_at(c, path.drop_first()),
            None => Seq::empty(),
        }
    }
}

/// The matches a lookup of the token sequence `vs` finds below `t`, having
/// already matched the tokens `acc`: descent follows the lower-cased tokens
/// child by child and stops at the first token with no matching child; every
/// terminal node passed on the way yields a pair of its identifier and the
/// original (not lower-cased) tokens matched so far.
pub open spec fn spec_traverse(t: StringTree, vs: Seq<Seq<char>>, acc: Seq<Seq<char>>) -> Seq<
    (Seq<char>, Seq<Seq<char>>),
>
    decreases vs.len(),
{
    if vs.len() == 0 {
        Seq::empty()
    } else {
        match child_node(t.children@, lower_of(vs[0])) {
            None => Seq::empty(),
            Some(c) => {
                let acc2 = acc.push(vs[0]);
                let rest = spec_traverse(c, vs.drop_first(), acc2);
                if c.uri@.len() > 0 {
                    seq![(c.uri@, acc2)] + rest
                } else {
                    rest
                }
            },
        }
    }
}

/// The view of a list of lookup results: identifier and matched tokens.
pub open spec fn results_view(rs: Seq<(String, Vec<String>)>) -> Seq<(Seq<char>, Seq<Seq<char>>)> {
    rs.map_values(|r: (String, Vec<String>)| (r.0@, r.1.deep_view()))
}

/// Two child lists whose nodes carry the same values agree on `find_in`.
proof fn lemma_find_in_same_values(cs1: Seq<StringTree>, cs2: Seq<StringTree>, v: Seq<char>)
    requires
        cs1.len() == cs2.len(),
        forall|j: int| 0 <= j < cs1.len() ==> (#[trigger] cs1[j]).value@ == cs2[j].value@,
    ensures
        find_in(cs1, v) == find_in(cs2, v),
    decreases cs1.len(),
{
    if cs1.len() > 0 {
        assert(cs1[0].value@ == cs2[0].value@);
        assert forall|j: int| 0 <= j < cs1.drop_first().len() implies (#[trigger] cs1.drop_first()[j]).value@
            == cs2.drop_first()[j].value@ by {
            assert(cs1.drop_first()[j] == cs1[j + 1]);
            assert(cs2.drop_first()[j] == cs2[j + 1]);
        }
        lemma_find_in_same_values(cs1.drop_first(), cs2.drop_first(), v);
    }
}

/// Replacing the node at `i` by one with the same value keeps the list
/// sorted and changes `child_node` at that value alone.
pub proof fn lemma_child_node_update(cs: Seq<StringTree>, i: int, c: StringTree)
    requires
        children_sorted(cs),
        0 <= i < cs.len(),
        c.value@ == cs[i].value@,
    ensures
        children_sorted(cs.update(i, c)),
        child_node(cs.update(i, c), cs[i].value@) == Some(c),
        forall|w: Seq<char>|
            w != cs[i].value@ ==> #[trigger] child_node(cs.update(i, c), w) == child_node(cs, w),
{
    let cs2 = cs.update(i, c);
    assert forall|j: int| 0 <= j < cs.len() implies (#[trigger] cs2[j]).value@
        == cs[j].value@ by {}
    assert(children_sorted(cs2));
    lemma_find_in_at(cs2, c.value@, i);
    assert forall|w: Seq<char>| w != cs[i].value@ implies #[trigger] child_node(cs2, w)
        == child_node(cs, w) by {
        lemma_find_in_same_values(cs2, cs, w);
        lemma_find_in(cs, w);
        match find_in(cs, w) {
            Some(k) => {
                assert(cs[k].value@ == w);
                assert(k != i);
                assert(cs2[k] == cs[k]);
            },
            None => {},
        }
    }
}

/// Inserting a node with a fresh value at its sorted position keeps the list
/// sorted, makes `child_node` find it, and changes nothing else.
pub proof fn lemma_child_node_insert(cs: Seq<StringTree>, i: int, c: StringTree)
    requires
        children_sorted(cs),
        0 <= i <= cs.len(),
        forall|j: int| 0 <= j < i ==> lex_lt((#[trigger] cs[j]).value@, c.value@),
        forall|j: int| i <= j < cs.len() ==> lex_lt(c.value@, (#[trigger] cs[j]).value@),
    ensures
        children_sorted(cs.insert(i, c)),
        child_node(cs.insert(i, c), c.value@) == Some(c),
        forall|w: Seq<char>|
            w != c.value@ ==> #[trigger] child_node(cs.insert(i, c), w) == child_node(cs, w),
{
    let cs2 = cs.insert(i, c);
    assert(cs2.len() == cs.len() + 1);
    assert forall|j: int| 0 <= j < cs2.len() implies (#[trigger] cs2[j]) == (if j < i {
        cs[j]
    } else if j == i {
        c
    } else {
        cs[j - 1]
    }) by {}
    assert forall|a: int, b: int| 0 <= a < b < cs2.len() implies lex_lt(
        (#[trigger] cs2[a]).value@,
        (#[trigger] cs2[b]).value@,
    ) by {
        if a == i {
            assert(lex_lt(c.value@, cs[b - 1].value@));
        } else if b == i {
            assert(lex_lt(cs[a].value@, c.value@));
        } else if a < i && b > i {
            lemma_lex_transitive(cs[a].value@, c.value@, cs[b - 1].value@);
        }
    }
    lemma_find_in_at(cs2, c.value@, i);
    assert forall|w: Seq<char>| w != c.value@ implies #[trigger] child_node(cs2, w)
        == child_node(cs, w) by {
        lemma_find_in(cs, w);
        lemma_find_in(cs2, w);
        match find_in(cs, w) {
            Some(k) => {
                let k2 = if k < i {
                    k
                } else {
                    k + 1
                };
                assert(cs2[k2] == cs[k]);
                lemma_find_in_at(cs2, w, k2);
            },
            None => {
                match find_in(cs2, w) {
                    Some(k2) => {
                        assert(cs2[k2].value@ == w);
                        assert(k2 != i);
                        if k2 < i {
                            assert(cs[k2].value@ == w);
                        } else {
                            assert(cs[k2 - 1].value@ == w);
                        }
                    },
                    None => {},
                }
            },
        }
    }
}

/// Binary search over a sorted child list: either the index carrying `v`, or
/// the insertion point that keeps the list sorted, with `v` absent.
pub(crate) fn search_children(cs: &Vec<StringTree>, v: &str) -> (r: Result<usize, usize>)
    requires
        children_sorted(cs@),
    ensures
        match r {
            Ok(i) => i < cs@.len() && cs@[i as int].value@ == v@ && find_in(cs@, v@) == Some(
                i as int,
            ),
            Err(i) => i <= cs@.len() && find_in(cs@, v@) is None && (forall|j: int|
                0 <= j < i ==> lex_lt((#[trigger] cs@[j]).value@, v@)) && (forall|j: int|
                i <= j < cs@.len() ==> lex_lt(v@, (#[trigger] cs@[j]).value@)),
        },
{
    let mut lo: usize = 0;
    let mut hi: usize = cs.len();
    while lo < hi
        invariant
            lo <= hi <= cs@.len(),
            children_sorted(cs@),
            forall|j: int| 0 <= j < lo ==> lex_lt((#[trigger] cs@[j]).value@, v@),
            forall|j: int| hi <= j < cs@.len() ==> lex_lt(v@, (#[trigger] cs@[j]).value@),
        decreases hi - lo,
    {
        let mid = lo + (hi - lo) / 2;
        let c = str_cmp(cs[mid].value.as_str(), v);
        if c == 0 {
            proof {
                lemma_find_in_at(cs@, v@, mid as int);
            }
            return Ok(mid);
        } else if c == -1 {
            proof {
                assert forall|j: int| 0 <= j <= mid implies lex_lt(
                    (#[trigger] cs@[j]).value@,
                    v@,
                ) by {
                    if j < mid {
                        lemma_lex_transitive(cs@[j].value@, cs@[mid as int].value@, v@);
                    }
                }
            }
            lo = mid + 1;
        } else {
            proof {
                assert forall|j: int| mid <= j < cs@.len() implies lex_lt(
                    v@,
                    (#[trigger] cs@[j]).value@,
                ) by {
                    if j > mid {
                        lemma_lex_transitive(v@, cs@[mid as int].value@, cs@[j].value@);
                    }
                }
            }
            hi = mid;
        }
    }
    proof {
        lemma_find_in(cs@, v@);
        assert forall|j: int| 0 <= j < cs@.len() implies (#[trigger] cs@[j]).value@ != v@ by {
            if j < lo {
                lemma_lex_trichotomy(cs@[j].value@, v@);
            } else {
                lemma_lex_trichotomy(v@, cs@[j].value@);
            }
        }
    }
    Err(lo)
}

impl StringTree {
    /// A fresh root node: no value of its own, no identifier, no children.
    pub fn root() -> (t: Self)
        ensures
            wf(t),
            t.value@ == "<ROOT>"@,
            t.uri@.len() == 0,
            t.children@.len() == 0,
            forall|p: Seq<Seq<char>>| (#[trigger] uri_at(t, p)).len() == 0,
    {
        let t = Self { value: "<ROOT>".to_owned(), uri: String::new(), children: Vec::new() };
        proof {
            assert forall|p: Seq<Seq<char>>| (#[trigger] uri_at(t, p)).len() == 0 by {
                if p.len() > 0 {
                    lemma_find_in(t.children@, p[0]);
                }
            }
        }
        t
    }

    /// A fresh leaf node carrying `value` and `uri`.
    pub fn create(value: &str, uri: String) -> (t: Self)
        ensures
            wf(t),
            t.value@ == value@,
            t.uri@ == uri@,
            t.children@.len() == 0,
            forall|p: Seq<Seq<char>>| p.len() > 0 ==> (#[trigger] uri_at(t, p)).len() == 0,
    {
        let value = value.to_owned();
        let t = Self { value, uri, children: Vec::new() };
        proof {
            assert forall|p: Seq<Seq<char>>| p.len() > 0 implies (#[trigger] uri_at(t, p)).len()
                == 0 by {
                lemma_find_in(t.children@, p[0]);
            }
        }
        t
    }

    /// Walks or creates the path `vals[i..]` (already lower-cased) below this
    /// node and writes `uri` at its end, first write wins. Returns whether
    /// the identifier was written.
    fn insert_at(&mut self, vals: &Vec<String>, i: usize, uri: String) -> (r: bool)
        requires
            wf(*old(self)),
            i < vals@.len(),
            uri@.len() > 0,
        ensures
            wf(*final(self)),
            final(self).value@ == old(self).value@,
            final(self).uri@ == old(self).uri@,
            r == (uri_at(*old(self), vals.deep_view().skip(i as int)).len() == 0),
            r ==> uri_at(*final(self), vals.deep_view().skip(i as int)) == uri@,
            !r ==> uri_at(*final(self), vals.deep_view().skip(i as int)) == uri_at(
                *old(self),
                vals.deep_view().skip(i as int),
            ),
            forall|p: Seq<Seq<char>>|
                p != vals.deep_view().skip(i as int) ==> #[trigger] uri_at(*final(self), p) == uri_at(
                    *old(self),
                    p,
                ),
        decreases vals@.len() - i,
    {
        let ghost path = vals.deep_view().skip(i as int);
        let ghost old_cs = self.children@;
        proof {
            assert(path.len() == vals@.len() - i);
            assert(path[0] == vals.deep_view()[i as int]);
            assert(vals.deep_view()[i as int] == vals@[i as int]@);
        }
        let n = vals.len();
        let v: &String = &vals[i];
        let last = i + 1 == n;
        let found = search_children(&self.children, v.as_str());
        let r: bool;
        match found {
            Ok(idx) => {
                let mut c = self.children.remove(idx);
                let ghost old_c = c;
                if last {
                    if c.uri.as_str().is_empty() {
                        c.uri = uri;
                        r = true;
                    } else {
                        r = false;
                    }
                } else {
                    proof {
                        assert(wf(old_c));
                        assert(vals.deep_view().skip(i + 1 as int) =~= path.drop_first());
                    }
                    r = c.insert_at(vals, i + 1, uri);
                }
                self.children.insert(idx, c);
                proof {
                    assert(self.children@ =~= old_cs.update(idx as int, c));
                    lemma_child_node_update(old_cs, idx as int, c);
                    assert(wf(c)) by {
                        if last {
                            assert(c.children@ == old_c.children@);
                            assert(wf(old_c));
                        }
                    }
                    assert(wf(*self)) by {
                        assert forall|j: int| 0 <= j < self.children@.len() implies wf(
                            #[trigger] self.children@[j],
                        ) by {
                            if j != idx as int {
                                assert(self.children@[j] == old_cs[j]);
                            }
                        }
                    }
                    assert(child_node(old_cs, path[0]) == Some(old_c));
                    assert(uri_at(*old(self), path) == uri_at(old_c, path.drop_first()));
                    assert(uri_at(*self, path) == uri_at(c, path.drop_first()));
                    if last {
                        assert(path.drop_first().len() == 0);
                        assert(uri_at(old_c, path.drop_first()) == old_c.uri@);
                        assert(uri_at(c, path.drop_first()) == c.uri@);
                    }
                    assert forall|p: Seq<Seq<char>>| p != path implies #[trigger] uri_at(*self, p)
                        == uri_at(*old(self), p) by {
                        if p.len() == 0 {
                        } else if p[0] != path[0] {
                            assert(child_node(self.children@, p[0]) == child_node(old_cs, p[0]));
                        } else {
                            let q = p.drop_first();
                            assert(q != path.drop_first()) by {
                                if q == path.drop_first() {
                                    assert forall|m: int| 0 <= m < p.len() implies p[m]
                                        == path[m] by {
                                        if m > 0 {
                                            assert(p[m] == q[m - 1]);
                                            assert(path[m] == path.drop_first()[m - 1]);
                                        }
                                    }
                                    assert(p =~= path);
                                }
                            }
                            assert(uri_at(*self, p) == uri_at(c, q));
                            assert(uri_at(*old(self), p) == uri_at(old_c, q));
                            if last {
                                assert(q.len() > 0) by {
                                    if q.len() == 0 {
                                        assert(p =~= path);
                                    }
                                }
                                assert(uri_at(c, q) == uri_at(old_c, q)) by {
                                    assert(c.children@ == old_c.children@);
                                }
                            }
                        }
                    }
                }
            },
            Err(idx) => {
                let mut c = StringTree::create(v.as_str(), String::new());
                if last {
                    c.uri = uri;
                    r = true;
                } else {
                    proof {
                        assert(vals.deep_view().skip(i + 1 as int) =~= path.drop_first());
                        assert(uri_at(c, path.drop_first()).len() == 0);
                    }
                    let rc = c.insert_at(vals, i + 1, uri);
                    r = rc;
                }
                let ghost c_final = c;
                self.children.insert(idx, c);
                proof {
                    assert(self.children@ =~= old_cs.insert(idx as int, c_final));
                    lemma_child_node_insert(old_cs, idx as int, c_final);
                    assert(wf(c_final)) by {
                        if last {
                            assert(c_final.children@.len() == 0);
                        }
                    }
                    assert(wf(*self)) by {
                        assert forall|j: int| 0 <= j < self.children@.len() implies wf(
                            #[trigger] self.children@[j],
                        ) by {
                            if j < idx as int {
                                assert(self.children@[j] == old_cs[j]);
                            } else if j > idx as int {
                                assert(self.children@[j] == old_cs[j - 1]);
                            }
                        }
                    }
                    lemma_find_in(old_cs, path[0]);
                    assert(child_node(old_cs, path[0]) is None);
                    assert(uri_at(*old(self), path).len() == 0);
                    assert(r);
                    assert(uri_at(*self, path) == uri_at(c_final, path.drop_first()));
                    if last {
                        assert(uri_at(c_final, path.drop_first()) == uri@);
                    }
                    assert forall|p: Seq<Seq<char>>| p != path implies #[trigger] uri_at(*self, p)
                        == uri_at(*old(self), p) by {
                        if p.len() == 0 {
                        } else if p[0] != path[0] {
                            assert(child_node(self.children@, p[0]) == child_node(old_cs, p[0]));
                        } else {
                            let q = p.drop_first();
                            assert(q != path.drop_first()) by {
                                if q == path.drop_first() {
                                    assert forall|m: int| 0 <= m < p.len() implies p[m]
                                        == path[m] by {
                                        if m > 0 {
                                            assert(p[m] == q[m - 1]);
                                            assert(path[m] == path.drop_first()[m - 1]);
                                        }
                                    }
                                    assert(p =~= path);
                                }
                            }
                            assert(uri_at(*self, p) == uri_at(c_final, q));
                            assert(uri_at(c_final, q).len() == 0) by {
                                if last {
                                    if q.len() == 0 {
                                        assert(p =~= path);
                                    } else {
                                        lemma_find_in(c_final.children@, q[0]);
                                    }
                                } else {
                                    if q.len() == 0 {
                                        assert(uri_at(c_final, q) == c_final.uri@);
                                    }
                                }
                            }
                            assert(uri_at(*old(self), p).len() == 0) by {
                                assert(child_node(old_cs, p[0]) is None);
                            }
                        }
                    }
                }
            },
        }
        r
    }

    /// Inserts the phrase `values` with identifier `uri`: lower-cases every
    /// token, walks or creates the path, and writes `uri` at its terminal
    /// node only if no identifier stands there yet (first write wins).
    /// Returns false, changing nothing, when the phrase already carries one.
    pub fn insert(&mut self, values: &Vec<String>, uri: String) -> (r: bool)
        requires
            wf(*old(self)),
            values@.len() > 0,
            uri@.len() > 0,
        ensures
            wf(*final(self)),
            final(self).value@ == old(self).value@,
            final(self).uri@ == old(self).uri@,
            r == (uri_at(*old(self), lowered(values.deep_view())).len() == 0),
            r ==> uri_at(*final(self), lowered(values.deep_view())) == uri@,
            !r ==> uri_at(*final(self), lowered(values.deep_view())) == uri_at(
                *old(self),
                lowered(values.deep_view()),
            ),
            forall|p: Seq<Seq<char>>|
                p != lowered(values.deep_view()) ==> #[trigger] uri_at(*final(self), p) == uri_at(
                    *old(self),
                    p,
                ),
            lowered(lowered(values.deep_view())) == lowered(values.deep_view()),
    {
        let mut low: Vec<String> = Vec::new();
        let mut k: usize = 0;
        while k < values.len()
            invariant
                k <= values@.len(),
                low@.len() == k,
                forall|j: int| 0 <= j < k ==> (#[trigger] low@[j])@ == lower_of(values@[j]@),
                forall|j: int| 0 <= j < k ==> lower_of((#[trigger] low@[j])@) == low@[j]@,
            decreases values@.len() - k,
        {
            low.push(lowercase(values[k].as_str()));
            k += 1;
        }
        proof {
            assert(low.deep_view() =~= lowered(values.deep_view()));
            assert(low.deep_view().skip(0) =~= low.deep_view());
            assert forall|i: int| 0 <= i < values.deep_view().len() implies lower_of(
                #[trigger] lower_of(values.deep_view()[i]),
            ) == lower_of(values.deep_view()[i]) by {
                assert(values.deep_view()[i] == values@[i]@);
                assert(low@[i]@ == lower_of(values@[i]@));
                assert(lower_of(low@[i]@) == low@[i]@);
            }
            crate::text::lemma_lowered_stable(values.deep_view());
        }
        self.insert_at(&low, 0, uri)
    }

    /// Looks the token sequence `values` up: walks the trie along the
    /// lower-cased tokens and collects, for every terminal node passed, its
    /// identifier and the tokens matched so far. Returns an error message
    /// when no prefix of `values` is a stored phrase.
    pub fn traverse(&self, values: &Vec<String>) -> (r: Result<
        Vec<(String, Vec<String>)>,
        String,
    >)
        requires
            wf(*self),
        ensures
            match r {
                Ok(out) => results_view(out@) == spec_traverse(
                    *self,
                    values.deep_view(),
                    Seq::empty(),
                ) && out@.len() > 0,
                Err(e) => spec_traverse(*self, values.deep_view(), Seq::empty()).len() == 0 && e@
                    == "No matches found"@,
            },
    {
        let ghost vs = values.deep_view();
        let n = values.len();
        let mut results: Vec<(String, Vec<String>)> = Vec::new();
        let mut acc: Vec<String> = Vec::new();
        let mut cur: &StringTree = self;
        let mut d: usize = 0;
        proof {
            assert(vs.skip(0) =~= vs);
            assert(acc.deep_view() =~= Seq::<Seq<char>>::empty());
            assert(acc.deep_view() =~= vs.take(0));
            assert(results_view(results@) =~= Seq::<(Seq<char>, Seq<Seq<char>>)>::empty());
            assert(spec_traverse(*self, vs.skip(0), acc.deep_view()) == spec_traverse(
                *self,
                vs,
                Seq::empty(),
            ));
        }
        loop
            invariant
                d <= n,
                n == vs.len(),
                vs == values.deep_view(),
                wf(*cur),
                acc.deep_view() =~= vs.take(d as int),
                spec_traverse(*self, vs, Seq::empty()) =~= results_view(results@)
                    + spec_traverse(*cur, vs.skip(d as int), acc.deep_view()),
            ensures
                spec_traverse(*self, vs, Seq::empty()) =~= results_view(results@),
            decreases n - d,
        {
            if d >= n {
                proof {
                    assert(vs.skip(d as int).len() == 0);
                }
                break ;
            }
            let low = lowercase(values[d].as_str());
            proof {
                assert(vs.skip(d as int)[0] == vs[d as int]);
                assert(low@ == lower_of(vs[d as int]));
            }
            match search_children(&cur.children, low.as_str()) {
                Ok(idx) => {
                    let ghost old_acc = acc.deep_view();
                    let ghost old_results = results@;
                    let c = &cur.children[idx];
                    acc.push(values[d].clone());
                    proof {
                        assert(acc.deep_view() =~= old_acc.push(vs[d as int]));
                        assert(acc.deep_view() =~= vs.take(d + 1 as int));
                        assert(child_node(cur.children@, lower_of(vs.skip(d as int)[0]))
                            == Some(*c));
                        assert(vs.skip(d as int).drop_first() =~= vs.skip(d + 1 as int));
                    }
                    if !c.uri.as_str().is_empty() {
                        results.push((c.uri.clone(), clone_strings(&acc)));
                        proof {
                            assert(results_view(results@) =~= results_view(old_results).push(
                                (c.uri@, acc.deep_view()),
                            ));
                            assert(spec_traverse(*cur, vs.skip(d as int), old_acc) =~= seq![
                                (c.uri@, acc.deep_view()),
                            ] + spec_traverse(*c, vs.skip(d + 1 as int), acc.deep_view()));
                            assert(spec_traverse(*self, vs, Seq::empty()) =~= results_view(
                                results@,
                            ) + spec_traverse(*c, vs.skip(d + 1 as int), acc.deep_view()));
                        }
                    } else {
                        proof {
                            assert(spec_traverse(*cur, vs.skip(d as int), old_acc)
                                =~= spec_traverse(*c, vs.skip(d + 1 as int), acc.deep_view()));
                        }
                    }
                    cur = c;
                    d += 1;
                },
                Err(_) => {
                    proof {
                        assert(child_node(cur.children@, lower_of(vs.skip(d as int)[0])) is None);
                        assert(spec_traverse(*cur, vs.skip(d as int), acc.deep_view()).len() == 0);
                    }
                    break ;
                },
            }
        }
        if results.len() > 0 {
            Ok(results)
        } else {
            proof {
                assert(results_view(results@).len() == 0);
            }
            Err("No matches found".to_owned())
        }
    }

    /// Merges the whole content of `other` into this trie: every phrase of
    /// `other` is inserted, identifiers are never overwritten (this trie wins on
    /// conflicting terminals), and the children ordering invariant is preserved.
    pub fn join(&mut self, other: &StringTree)
        requires
            wf(*old(self)),
            wf(*other),
        ensures
            wf(*final(self)),
            final(self).value@ == old(self).value@,
            forall|p: Seq<Seq<char>>|
                #[trigger] uri_at(*final(self), p) == merged_uri(*old(self), *other, p),
    {
        let ghost a = *old(self);
        if self.uri.as_str().is_empty() {
            if !other.uri.as_str().is_empty() {
                self.uri = other.uri.clone();
            }
        }
        proof {
            assert forall|p: Seq<Seq<char>>| #[trigger] uri_at(*self, p) == (if p.len() == 0 {
                merged_uri(a, *other, p)
            } else {
                uri_at(a, p)
            }) by {
                if p.len() > 0 {
                    assert(self.children@ == a.children@);
                }
            }
        }
        let ghost t0 = *self;
        let empty_prefix: Vec<String> = Vec::new();
        let mut phrases: Vec<(Vec<String>, String)> = Vec::new();
        collect_into(other, &empty_prefix, &mut phrases);
        proof {
            assert(empty_prefix.deep_view() =~= Seq::<Seq<char>>::empty());
            assert forall|k: int| 0 <= k < phrases@.len() implies {
                let pr = #[trigger] phrases@[k];
                &&& pr.0.deep_view().len() > 0
                &&& uri_at(*other, pr.0.deep_view()) == pr.1@
                &&& pr.1@.len() > 0
            } by {
                let pr = phrases@[k];
                assert(pr.0.deep_view().skip(0) =~= pr.0.deep_view());
            }
            assert forall|q: Seq<Seq<char>>|
                q.len() > 0 && (#[trigger] uri_at(*other, q)).len() > 0 implies exists|k: int|
                0 <= k < phrases@.len() && (#[trigger] phrases@[k]).0.deep_view() == q by {
                let k = choose|k: int|
                    0 <= k < phrases@.len() && (#[trigger] phrases@[k]).0.deep_view()
                        == empty_prefix.deep_view() + q;
                assert(empty_prefix.deep_view() + q =~= q);
                assert(phrases@[k].0.deep_view() == q);
            }
        }
        let n = phrases.len();
        let mut k: usize = 0;
        while k < n
            invariant
                k <= n,
                n == phrases@.len(),
                wf(*self),
                self.value@ == a.value@,
                forall|j: int|
                    0 <= j < n ==> {
                        let pr = #[trigger] phrases@[j];
                        &&& pr.0.deep_view().len() > 0
                        &&& uri_at(*other, pr.0.deep_view()) == pr.1@
                        &&& pr.1@.len() > 0
                    },
                forall|q: Seq<Seq<char>>|
                    q.len() > 0 && (#[trigger] uri_at(*other, q)).len() > 0 ==> exists|j: int|
                        0 <= j < n && (#[trigger] phrases@[j]).0.deep_view() == q,
                forall|p: Seq<Seq<char>>|
                    #[trigger] uri_at(*self, p) == (if p.len() == 0 || (exists|j: int|
                        0 <= j < k && (#[trigger] phrases@[j]).0.deep_view() == p) {
                        merged_uri(a, *other, p)
                    } else {
                        uri_at(a, p)
                    }),
            decreases n - k,
        {
            let ghost before = *self;
            let pv = &phrases[k].0;
            let u = phrases[k].1.clone();
            let ghost pk = pv.deep_view();
            proof {
                assert(pk.skip(0) =~= pk);
            }
            let _ = self.insert_at(pv, 0, u);
            proof {
                assert forall|p: Seq<Seq<char>>| #[trigger] uri_at(*self, p) == (if p.len() == 0 || (
                exists|j: int| 0 <= j < k + 1 && (#[trigger] phrases@[j]).0.deep_view() == p) {
                    merged_uri(a, *other, p)
                } else {
                    uri_at(a, p)
                }) by {
                    if p == pk {
                        assert(phrases@[k as int].0.deep_view() == p);
                        assert(uri_at(*other, p) == phrases@[k as int].1@);
                        if uri_at(before, p).len() == 0 {
                            assert(uri_at(*self, p) == u@);
                            assert(uri_at(before, p) == (if p.len() == 0 || (exists|j: int|
                                0 <= j < k && (#[trigger] phrases@[j]).0.deep_view() == p) {
                                merged_uri(a, *other, p)
                            } else {
                                uri_at(a, p)
                            }));
                            if p.len() == 0 || (exists|j: int|
                                0 <= j < k && (#[trigger] phrases@[j]).0.deep_view() == p) {
                                assert(merged_uri(a, *other, p).len() == 0);
                                assert(uri_at(*other, p).len() > 0);
                                assert(uri_at(a, p).len() == 0);
                                assert(false);
                            } else {
                                assert(uri_at(a, p).len() == 0);
                                assert(merged_uri(a, *other, p) == uri_at(*other, p));
                                assert(uri_at(*self, p) == merged_uri(a, *other, p));
                            }
                        } else {
                            assert(uri_at(*self, p) == uri_at(before, p));
                            if !(p.len() == 0 || (exists|j: int|
                                0 <= j < k && (#[trigger] phrases@[j]).0.deep_view() == p)) {
                                assert(uri_at(before, p) == uri_at(a, p));
                                assert(merged_uri(a, *other, p) == uri_at(a, p));
                            }
                        }
                    } else {
                        assert(uri_at(*self, p) == uri_at(before, p));
                        if exists|j: int| 0 <= j < k + 1 && (#[trigger] phrases@[j]).0.deep_view()
                            == p {
                            let j = choose|j: int|
                                0 <= j < k + 1 && (#[trigger] phrases@[j]).0.deep_view() == p;
                            assert(j < k);
                        }
                    }
                }
            }
            k += 1;
        }
        proof {
            assert forall|p: Seq<Seq<char>>| #[trigger] uri_at(*self, p) == merged_uri(
                a,
                *other,
                p,
            ) by {
                if p.len() > 0 && !(exists|j: int|
                    0 <= j < n && (#[trigger] phrases@[j]).0.deep_view() == p) {
                    assert(uri_at(*other, p).len() == 0);
                    assert(merged_uri(a, *other, p) == (if uri_at(a, p).len() > 0 {
                        uri_at(a, p)
                    } else {
                        uri_at(*other, p)
                    }));
                    assert(uri_at(*self, p) == uri_at(a, p));
                    if uri_at(a, p).len() == 0 {
                        assert(uri_at(a, p) =~= uri_at(*other, p));
                    }
                }
            }
        }
    }
}

/// The queryable content of a merge of `a` with `b`: at every path, `a`'s
/// identifier where `a` carries one, else `b`'s (first trie wins).
pub open spec fn merged_uri(a: StringTree, b: StringTree, p: Seq<Seq<char>>) -> Seq<char> {
    if uri_at(a, p).len() > 0 {
        uri_at(a, p)
    } else {
        uri_at(b, p)
    }
}

/// Appends to `out` every phrase stored at or below `t`, as the pair of its
/// full token path (with `prefix` prepended) and its identifier: exactly the
/// non-empty identifiers that `uri_at` finds below `t`.
#[verifier::rlimit(100)]
fn collect_into(t: &StringTree, prefix: &Vec<String>, out: &mut Vec<(Vec<String>, String)>)
    requires
        wf(*t),
    ensures
        final(out)@.len() >= old(out)@.len(),
        forall|k: int| 0 <= k < old(out)@.len() ==> #[trigger] final(out)@[k] == old(out)@[k],
        forall|k: int|
            old(out)@.len() <= k < final(out)@.len() ==> {
                let pr = #[trigger] final(out)@[k];
                &&& pr.0.deep_view().len() > prefix.deep_view().len()
                &&& pr.0.deep_view().take(prefix.deep_view().len() as int) == prefix.deep_view()
                &&& uri_at(*t, pr.0.deep_view().skip(prefix.deep_view().len() as int)) == pr.1@
                &&& pr.1@.len() > 0
            },
        forall|q: Seq<Seq<char>>|
            q.len() > 0 && (#[trigger] uri_at(*t, q)).len() > 0 ==> exists|k: int|
                old(out)@.len() <= k < final(out)@.len() && (#[trigger] final(out)@[k]).0.deep_view()
                    == prefix.deep_view() + q,
        decreases *t,
{
    let ghost base = out@.len() as int;
    let ghost pre = prefix.deep_view();
    let mut idx: usize = 0;
    proof {
        assert forall|q: Seq<Seq<char>>|
            q.len() > 0 && (#[trigger] uri_at(*t, q)).len() > 0 && (match find_in(
                t.children@,
                q[0],
            ) {
                Some(i) => i < 0,
                None => false,
            }) implies exists|k: int|
            base <= k < out@.len() && (#[trigger] out@[k]).0.deep_view() == pre + q by {
            lemma_find_in(t.children@, q[0]);
        }
    }
    while idx < t.children.len()
        invariant
            idx <= t.children@.len(),
            wf(*t),
            out@.len() >= base,
            pre == prefix.deep_view(),
            base == old(out)@.len(),
            forall|k: int| 0 <= k < base ==> #[trigger] out@[k] == old(out)@[k],
            forall|k: int|
                base <= k < out@.len() ==> {
                    let pr = #[trigger] out@[k];
                    &&& pr.0.deep_view().len() > pre.len()
                    &&& pr.0.deep_view().take(pre.len() as int) == pre
                    &&& uri_at(*t, pr.0.deep_view().skip(pre.len() as int)) == pr.1@
                    &&& pr.1@.len() > 0
                },
            forall|q: Seq<Seq<char>>|
                q.len() > 0 && (#[trigger] uri_at(*t, q)).len() > 0 && (match find_in(
                    t.children@,
                    q[0],
                ) {
                    Some(i) => i < idx,
                    None => false,
                }) ==> exists|k: int|
                    base <= k < out@.len() && (#[trigger] out@[k]).0.deep_view() == pre + q,
        decreases t.children@.len() - idx,
    {
        let ghost loop_start = out@.len() as int;
        let ghost start_out = out@;
        let c = &t.children[idx];
        proof {
            lemma_find_in_at(t.children@, c.value@, idx as int);
        }
        let mut p2 = clone_strings(prefix);
        p2.push(c.value.clone());
        proof {
            assert(p2.deep_view() =~= pre.push(c.value@));
        }
        if !c.uri.as_str().is_empty() {
            let entry = (clone_strings(&p2), c.uri.clone());
            out.push(entry);
            proof {
                let pr = out@[out@.len() - 1];
                assert(pr.0.deep_view() == p2.deep_view());
                assert(pr.0.deep_view().take(pre.len() as int) =~= pre);
                assert(pr.0.deep_view().skip(pre.len() as int) =~= seq![c.value@]);
                assert(uri_at(*t, seq![c.value@]) == c.uri@) by {
                    assert(seq![c.value@][0] == c.value@);
                    assert(child_node(t.children@, seq![c.value@][0]) == Some(*c));
                    assert(uri_at(*t, seq![c.value@]) == uri_at(
                        *c,
                        seq![c.value@].drop_first(),
                    ));
                    assert(seq![c.value@].drop_first().len() == 0);
                }
            }
        }
        let ghost before_rec = out@.len() as int;
        let ghost mid_out = out@;
        collect_into(c, &p2, out);
        proof {
            let cs = t.children@;
            assert forall|k: int| base <= k < out@.len() implies {
                let pr = #[trigger] out@[k];
                &&& pr.0.deep_view().len() > pre.len()
                &&& pr.0.deep_view().take(pre.len() as int) == pre
                &&& uri_at(*t, pr.0.deep_view().skip(pre.len() as int)) == pr.1@
                &&& pr.1@.len() > 0
            } by {
                if k < before_rec {
                    assert(out@[k] == mid_out[k]);
                } else {
                    let pr = out@[k];
                    let pv = pr.0.deep_view();
                    assert(pv.take(p2.deep_view().len() as int) == p2.deep_view());
                    assert(pv.take(pre.len() as int) =~= pre) by {
                        assert forall|m: int| 0 <= m < pre.len() implies pv.take(
                            pre.len() as int,
                        )[m] == pre[m] by {
                            assert(pv[m] == pv.take(p2.deep_view().len() as int)[m]);
                        }
                    }
                    let rel = pv.skip(pre.len() as int);
                    assert(rel.len() > 0);
                    assert(rel[0] == c.value@) by {
                        assert(pv[pre.len() as int] == pv.take(p2.deep_view().len() as int)[
                            pre.len() as int
                        ]);
                    }
                    assert(rel.drop_first() =~= pv.skip(p2.deep_view().len() as int));
                    assert(child_node(cs, rel[0]) == Some(*c));
                    assert(uri_at(*t, rel) == uri_at(*c, rel.drop_first()));
                }
            }
            assert forall|q: Seq<Seq<char>>|
                q.len() > 0 && (#[trigger] uri_at(*t, q)).len() > 0 && (match find_in(cs, q[0]) {
                    Some(i) => i < idx + 1,
                    None => false,
                }) implies exists|k: int|
                base <= k < out@.len() && (#[trigger] out@[k]).0.deep_view() == pre + q by {
                let i = find_in(cs, q[0])->Some_0;
                lemma_find_in(cs, q[0]);
                if i < idx {
                    let k = choose|k: int|
                        base <= k < start_out.len() && (#[trigger] start_out[k]).0.deep_view()
                            == pre + q;
                    assert(mid_out[k] == start_out[k]);
                    assert(out@[k] == mid_out[k]);
                    assert(out@[k].0.deep_view() == pre + q);
                } else {
                    assert(i == idx);
                    assert(cs[i] == *c);
                    assert(uri_at(*t, q) == uri_at(*c, q.drop_first()));
                    if q.len() == 1 {
                        assert(q.drop_first().len() == 0);
                        assert(uri_at(*c, q.drop_first()) == c.uri@);
                        let k = loop_start;
                        assert(out@[k] == mid_out[k]);
                        assert(mid_out[k].0.deep_view() == p2.deep_view());
                        assert(p2.deep_view() =~= pre + q) by {
                            assert(q =~= seq![q[0]]);
                        }
                    } else {
                        let qq = q.drop_first();
                        assert(qq.len() > 0 && uri_at(*c, qq).len() > 0);
                        let k = choose|k: int|
                            before_rec <= k < out@.len() && (#[trigger] out@[k]).0.deep_view()
                                == p2.deep_view() + qq;
                        assert(p2.deep_view() + qq =~= pre + q);
                        assert(out@[k].0.deep_view() == pre + q);
                    }
                }
            }
        }
        idx += 1;
    }
    proof {
        assert forall|q: Seq<Seq<char>>|
            q.len() > 0 && (#[trigger] uri_at(*t, q)).len() > 0 implies exists|k: int|
            base <= k < out@.len() && (#[trigger] out@[k]).0.deep_view() == pre + q by {
            lemma_find_in(t.children@, q[0]);
            if find_in(t.children@, q[0]) is None {
                assert(uri_at(*t, q).len() == 0);
            }
        }
    }
}


/// A verified deep copy of a vector of strings.
pub fn clone_strings(v: &Vec<String>) -> (r: Vec<String>)
    ensures
        r.deep_view() == v.deep_view(),
{
    let mut r: Vec<String> = Vec::new();
    let mut k: usize = 0;
    while k < v.len()
        invariant
            k <= v@.len(),
            r@.len() == k,
            forall|j: int| 0 <= j < k ==> (#[trigger] r@[j])@ == v@[j]@,
        decreases v@.len() - k,
    {
        r.push(v[k].clone());
        k += 1;
    }
    proof {
        assert(r.deep_view() =~= v.deep_view());
    }
    r
}

/// Lookups are case-insensitive: two queries whose tokens lower-case to
/// the same values find the same identifiers at the same depths; each
/// query's matched-token lists echo its own casing, extending its own
/// already-matched tokens.
pub proof fn lemma_traverse_case_insensitive(
    t: StringTree,
    vs: Seq<Seq<char>>,
    vs2: Seq<Seq<char>>,
    acc: Seq<Seq<char>>,
    acc2: Seq<Seq<char>>,
)
    requires
        vs2.len() == vs.len(),
        forall|i: int| 0 <= i < vs.len() ==> lower_of(vs2[i]) == lower_of(#[trigger] vs[i]),
    ensures
        spec_traverse(t, vs2, acc2).len() == spec_traverse(t, vs, acc).len(),
        forall|k: int|
            0 <= k < spec_traverse(t, vs, acc).len() ==> (#[trigger] spec_traverse(t, vs2, acc2)[k]).0
                == spec_traverse(t, vs, acc)[k].0 && spec_traverse(t, vs2, acc2)[k].1.len()
                - acc2.len() == spec_traverse(t, vs, acc)[k].1.len() - acc.len(),
    decreases vs.len(),
{
    if vs.len() > 0 {
        assert(lower_of(vs2[0]) == lower_of(vs[0]));
        match child_node(t.children@, lower_of(vs[0])) {
            None => {},
            Some(c) => {
                assert forall|i: int| 0 <= i < vs.drop_first().len() implies lower_of(
                    vs2.drop_first()[i],
                ) == lower_of(#[trigger] vs.drop_first()[i]) by {
                    assert(vs.drop_first()[i] == vs[i + 1]);
                    assert(vs2.drop_first()[i] == vs2[i + 1]);
                }
                let a1 = acc.push(vs[0]);
                let a2 = acc2.push(vs2[0]);
                lemma_traverse_case_insensitive(c, vs.drop_first(), vs2.drop_first(), a1, a2);
                let r1 = spec_traverse(t, vs, acc);
                let r2 = spec_traverse(t, vs2, acc2);
                let rest1 = spec_traverse(c, vs.drop_first(), a1);
                let rest2 = spec_traverse(c, vs2.drop_first(), a2);
                assert forall|k: int| 0 <= k < r1.len() implies (#[trigger] r2[k]).0 == r1[k].0
                    && r2[k].1.len() - acc2.len() == r1[k].1.len() - acc.len() by {
                    if c.uri@.len() > 0 {
                        if k == 0 {
                            assert(r1[0] == (c.uri@, a1));
                            assert(r2[0] == (c.uri@, a2));
                        } else {
                            assert(r1[k] == rest1[k - 1]);
                            assert(r2[k] == rest2[k - 1]);
                        }
                    } else {
                        assert(r1[k] == rest1[k]);
                        assert(r2[k] == rest2[k]);
                    }
                }
            },
        }
    }
}

/// Insert/lookup round trip: when the lower-cased path of a token sequence
/// carries an identifier -- as it does after a successful insert of that
/// phrase -- a lookup of the very same tokens reports a match with that
/// identifier and exactly those tokens.
pub proof fn lemma_insert_lookup_roundtrip(t: StringTree, vs: Seq<Seq<char>>, acc: Seq<Seq<char>>)
    requires
        vs.len() > 0,
        uri_at(t, lowered(vs)).len() > 0,
    ensures
        spec_traverse(t, vs, acc).contains((uri_at(t, lowered(vs)), acc + vs)),
    decreases vs.len(),
{
    let lv = lowered(vs);
    let target = uri_at(t, lv);
    assert(lv[0] == lower_of(vs[0]));
    match child_node(t.children@, lv[0]) {
        None => {
            assert(false);
        },
        Some(c) => {
            let acc2 = acc.push(vs[0]);
            let rest = spec_traverse(c, vs.drop_first(), acc2);
            assert(uri_at(t, lv) == uri_at(c, lv.drop_first()));
            if vs.len() == 1 {
                assert(lv.drop_first().len() == 0);
                assert(target == c.uri@);
                assert(acc2 =~= acc + vs);
                let whole = spec_traverse(t, vs, acc);
                assert(whole == seq![(c.uri@, acc2)] + rest);
                assert(whole[0] == (target, acc + vs));
                assert(whole.contains((target, acc + vs)));
            } else {
                assert(lv.drop_first() =~= lowered(vs.drop_first())) by {
                    assert forall|m: int| 0 <= m < vs.len() - 1 implies lv.drop_first()[m]
                        == lowered(vs.drop_first())[m] by {
                        assert(lv.drop_first()[m] == lv[m + 1]);
                        assert(lowered(vs.drop_first())[m] == lower_of(vs.drop_first()[m]));
                        assert(vs.drop_first()[m] == vs[m + 1]);
                    }
                }
                assert(uri_at(c, lowered(vs.drop_first())) == target);
                lemma_insert_lookup_roundtrip(c, vs.drop_first(), acc2);
                assert(acc2 + vs.drop_first() =~= acc + vs);
                assert(rest.contains((target, acc + vs)));
                let i = choose|i: int| 0 <= i < rest.len() && rest[i] == (target, acc + vs);
                let whole = spec_traverse(t, vs, acc);
                if c.uri@.len() > 0 {
                    assert(whole == seq![(c.uri@, acc2)] + rest);
                    assert(whole[i + 1] == (target, acc + vs));
                    assert(whole.contains((target, acc + vs)));
                } else {
                    assert(whole == rest);
                }
            }
        },
    }
}

/// Merging with the same trie twice adds nothing: after `a.join(b)` gave a
/// trie with the content `merged_uri(a, b, _)` and a second `join(b)` gave
/// `merged_uri` of that with `b` again, the queryable content is unchanged
/// at every path.
pub proof fn lemma_join_idempotent(a: StringTree, b: StringTree, ab: StringTree, abb: StringTree)
    requires
        forall|q: Seq<Seq<char>>| #[trigger] uri_at(ab, q) == merged_uri(a, b, q),
        forall|q: Seq<Seq<char>>| #[trigger] uri_at(abb, q) == merged_uri(ab, b, q),
    ensures
        forall|q: Seq<Seq<char>>| #[trigger] uri_at(abb, q) == uri_at(ab, q),
{
    assert forall|q: Seq<Seq<char>>| #[trigger] uri_at(abb, q) == uri_at(ab, q) by {
        assert(uri_at(ab, q) == merged_uri(a, b, q));
    }
}

} // verus!
