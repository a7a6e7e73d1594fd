//! The candidate-name index: a trie of characters.
//!
//! Each node owns its children in a vector kept sorted by key character, so
//! lookups can binary-search and a pre-order walk enumerates stored names in
//! lexicographic order. A node whose `count` is positive terminates a stored
//! name and carries that full name in `value`; duplicate insertions bump the
//! count instead of storing the name twice.

use vstd::prelude::*;
use crate::text::lex_lt;

verus! {

/// One character position in the tree. The root carries no key.
#[derive(Debug)]
pub struct Node {
    pub children: Vec<Node>,
    pub key: Option<char>,
    pub value: Option<String>,
    pub count: usize,
}

/// The index of the child carrying key `c`, by linear scan.
pub open spec fn find_key(children: Seq<Node>, c: char) -> Option<int>
    decreases children.len(),
{
    if children.len() == 0 {
        None
    } else if children[0].key == Some(c) {
        Some(0)
    } else {
        match find_key(children.skip(1), c) {
            Some(i) => Some(i + 1),
            None => None,
        }
    }
}

/// Children carry keys, and the keys ascend strictly.
pub open spec fn keys_sorted(children: Seq<Node>) -> bool {
    &&& forall|i: int| 0 <= i < children.len() ==> (#[trigger] children[i]).key is Some
    &&& forall|i: int, j: int|
        0 <= i < j < children.len() ==> ((#[trigger] children[i]).key.unwrap() as u32) < ((
        #[trigger] children[j]).key.unwrap() as u32)
}

/// How many times the string `s` was inserted below `node`: the count at the
/// node reached by consuming `s` character by character, zero if the path
/// breaks off.
pub open spec fn node_count(node: Node, s: Seq<char>) -> nat
    decreases s.len(),
{
    if s.len() == 0 {
        node.count as nat
    } else {
        match find_key(node.children@, s[0]) {
            Some(i) => node_count(node.children@[i], s.skip(1)),
            None => 0,
        }
    }
}

impl Node {
    /// Well-formed below a path `stem` from the root: children are sorted
    /// and themselves well-formed one character deeper, and the node is a
    /// terminal (positive count) exactly when it holds a value, which is
    /// then the full path leading here.
    pub open spec fn wf(self, stem: Seq<char>) -> bool
        decreases self,
    {
        &&& (self.count > 0 <==> self.value is Some)
        &&& (self.value matches Some(v) ==> v@ == stem)
        &&& keys_sorted(self.children@)
        &&& (forall|i: int|
            0 <= i < self.children@.len() ==> (#[trigger] self.children@[i]).wf(
                stem.push(self.children@[i].key.unwrap()),
            ))
    }

    /// A fresh node: no key, no value, no children.
    pub fn new() -> (n: Node)
        ensures
            n.children@.len() == 0,
            n.key is None,
            n.value is None,
            n.count == 0,
            forall|stem: Seq<char>| n.wf(stem),
            forall|s: Seq<char>| node_count(n, s) == 0,
    {
        let n = Node { children: Vec::new(), key: None, value: None, count: 0 };
        proof {
            lemma_empty_node(n);
        }
        n
    }

    /// A fresh node carrying the key `s`.
    pub fn with_key(s: char) -> (n: Node)
        ensures
            n.children@.len() == 0,
            n.key == Some(s),
            n.value is None,
            n.count == 0,
            forall|stem: Seq<char>| n.wf(stem),
            forall|s: Seq<char>| node_count(n, s) == 0,
    {
        let n = Node { children: Vec::new(), key: Some(s), value: None, count: 0 };
        proof {
            lemma_empty_node(n);
        }
        n
    }
}

/// A node without children and without a count stores nothing and is
/// well-formed below any path.
proof fn lemma_empty_node(n: Node)
    requires
        n.children@.len() == 0,
        n.value is None,
        n.count == 0,
    ensures
        forall|stem: Seq<char>| n.wf(stem),
        forall|s: Seq<char>| node_count(n, s) == 0,
{
    assert forall|s: Seq<char>| node_count(n, s) == 0 by {
        if s.len() > 0 {
            assert(find_key(n.children@, s[0]) is None);
        }
    }
}

/// What `find_key` answers is right: a found index carries the key, and a
/// miss means no child carries it.
pub proof fn lemma_find_key_props(children: Seq<Node>, c: char)
    ensures
        match find_key(children, c) {
            Some(i) => 0 <= i < children.len() && children[i].key == Some(c),
            None => forall|k: int|
                0 <= k < children.len() ==> (#[trigger] children[k]).key != Some(c),
        },
    decreases children.len(),
{
    if children.len() > 0 && children[0].key != Some(c) {
        lemma_find_key_props(children.skip(1), c);
        match find_key(children.skip(1), c) {
            Some(i) => {
                assert(children.skip(1)[i] == children[i + 1]);
            },
            None => {
                assert forall|k: int|
                    0 <= k < children.len() implies (#[trigger] children[k]).key != Some(c) by {
                    if k > 0 {
                        assert(children.skip(1)[k - 1] == children[k]);
                    }
                }
            },
        }
    }
}

/// Under sorted keys the carrier of a key is unique, so `find_key` returns
/// exactly the index that carries it.
pub proof fn lemma_find_key_unique(children: Seq<Node>, c: char, i: int)
    requires
        keys_sorted(children),
        0 <= i < children.len(),
        children[i].key == Some(c),
    ensures
        find_key(children, c) == Some(i),
    decreases children.len(),
{
    if i > 0 {
        assert((children[0].key.unwrap() as u32) < (children[i].key.unwrap() as u32));
        let rest = children.skip(1);
        assert forall|x: int| 0 <= x < rest.len() implies (#[trigger] rest[x]).key is Some by {
            assert(rest[x] == children[x + 1]);
        }
        assert forall|x: int, y: int|
            0 <= x < y < rest.len() implies ((#[trigger] rest[x]).key.unwrap() as u32) < ((
        #[trigger] rest[y]).key.unwrap() as u32) by {
            assert(rest[x] == children[x + 1] && rest[y] == children[y + 1]);
        }
        assert(rest[i - 1] == children[i]);
        lemma_find_key_unique(rest, c, i - 1);
    }
}

/// Binary search among the sorted children for the key `c`: the index that
/// carries it, or the index where it would have to be inserted.
fn search_children(children: &Vec<Node>, c: char) -> (r: Result<usize, usize>)
    requires
        keys_sorted(children@),
    ensures
        match r {
            Ok(i) => {
                &&& 0 <= i < children@.len()
                &&& children@[i as int].key == Some(c)
                &&& find_key(children@, c) == Some(i as int)
            },
            Err(i) => {
                &&& i <= children@.len()
                &&& find_key(children@, c) is None
                &&& forall|k: int|
                    0 <= k < i ==> ((#[trigger] children@[k]).key.unwrap() as u32) < c as u32
                &&& forall|k: int|
                    i <= k < children@.len() ==> (c as u32) < ((
                #[trigger] children@[k]).key.unwrap() as u32)
            },
        },
{
    let mut lo: usize = 0;
    let mut hi: usize = children.len();
    while lo < hi
        invariant
            lo <= hi <= children@.len(),
            keys_sorted(children@),
            forall|k: int| 0 <= k < lo ==> ((#[trigger] children@[k]).key.unwrap() as u32) < c
                as u32,
            forall|k: int|
                hi <= k < children@.len() ==> (c as u32) < ((
            #[trigger] children@[k]).key.unwrap() as u32),
        decreases hi - lo,
    {
        let mid = lo + (hi - lo) / 2;
        let k: char = match &children[mid].key {
            Some(k) => *k,
            None => {
                proof {
                    assert(false);
                }
                c
            },
        };
        if (k as u32) < (c as u32) {
            lo = mid + 1;
        } else if (c as u32) < (k as u32) {
            hi = mid;
        } else {
            proof {
                assert(k == c) by {
                    crate::text::lemma_char_eq_u32(k, c);
                }
                lemma_find_key_unique(children@, c, mid as int);
            }
            return Ok(mid);
        }
    }
    proof {
        lemma_find_key_props(children@, c);
        match find_key(children@, c) {
            Some(i) => {
                assert(children@[i].key == Some(c));
            },
            None => {},
        }
    }
    Err(lo)
}

/// The candidate-name index: a trie holding every inserted name, with its
/// insertion count.
#[derive(Debug)]
pub struct Trie {
    pub root: Node,
}

impl Trie {
    /// The tree below the root is well-formed.
    pub open spec fn wf(self) -> bool {
        &&& self.root.wf(Seq::empty())
        &&& self.root.key is None
    }

    /// How many times `s` was inserted.
    pub open spec fn count_of(self, s: Seq<char>) -> nat {
        node_count(self.root, s)
    }

    /// Whether `s` was ever inserted.
    pub open spec fn stores(self, s: Seq<char>) -> bool {
        self.count_of(s) > 0
    }

    /// An empty index.
    pub fn new() -> (t: Trie)
        ensures
            t.wf(),
            forall|s: Seq<char>| t.count_of(s) == 0,
    {
        Trie { root: Node::new() }
    }

    /// Adds `s` to the index: its count rises by one (so it is stored
    /// afterward), and no other string's count moves.
    pub fn insert(&mut self, s: &str)
        requires
            old(self).wf(),
            old(self).count_of(s@) < usize::MAX,
        ensures
            final(self).wf(),
            final(self).count_of(s@) == old(self).count_of(s@) + 1,
            final(self).stores(s@),
            forall|t: Seq<char>| t != s@ ==> final(self).count_of(t) == old(self).count_of(t),
    {
        let cs = crate::text::chars_of(s);
        let owned: String = s.to_owned();
        proof {
            assert(Seq::<char>::empty() + cs@.skip(0) =~= s@);
            assert(cs@.skip(0) =~= s@);
        }
        insert_rec(&mut self.root, &cs, 0, owned, Ghost(Seq::empty()));
    }

    /// Whether `s` is stored: the walk reaches a node for every character
    /// and ends on a terminal.
    pub fn contains(&self, s: &str) -> (r: bool)
        requires
            self.wf(),
        ensures
            r == self.stores(s@),
    {
        self.stored_count(s) > 0
    }

    /// The number of times `s` was inserted, by walking the path of `s`.
    fn stored_count(&self, s: &str) -> (n: usize)
        requires
            self.wf(),
        ensures
            n as nat == self.count_of(s@),
    {
        let cs = crate::text::chars_of(s);
        let mut current: &Node = &self.root;
        let mut i: usize = 0;
        proof {
            assert(cs@.skip(0) =~= s@);
        }
        while i < cs.len()
            invariant
                i <= cs@.len(),
                cs@ == s@,
                exists|stem: Seq<char>| (#[trigger] current.wf(stem)),
                node_count(self.root, s@) == node_count(*current, s@.skip(i as int)),
            decreases cs@.len() - i,
        {
            let ghost stem = choose|stem: Seq<char>| current.wf(stem);
            let c = cs[i];
            proof {
                assert(s@.skip(i as int)[0] == s@[i as int]);
                assert(s@.skip(i as int).skip(1) =~= s@.skip(i + 1 as int));
            }
            match search_children(&current.children, c) {
                Ok(idx) => {
                    proof {
                        assert(current.children@[idx as int].wf(
                            stem.push(current.children@[idx as int].key.unwrap()),
                        ));
                    }
                    current = &current.children[idx];
                },
                Err(_) => {
                    return 0;
                },
            }
            i = i + 1;
        }
        proof {
            assert(s@.skip(cs@.len() as int).len() == 0);
        }
        current.count
    }
}

impl Trie {
    /// Levenshtein distance between two strings, in characters.
    pub fn edit_distance(&self, s1: &str, s2: &str) -> (d: usize)
        ensures
            d as nat == crate::ranking::lev(s1@, s2@),
    {
        let a = crate::text::chars_of(s1);
        let b = crate::text::chars_of(s2);
        crate::ranking::levenshtein(&a, &b)
    }

    /// The fuzzy-match ratio of `pattern` against `text`, as an exact
    /// fraction: the share of matched pattern characters plus a bonus for
    /// the longest consecutive run, capped at one. A successful scan
    /// consumes every pattern character, so the share is already one and the
    /// bonus only pushes against the cap: a match always yields the full
    /// ratio, and a failed scan yields nothing.
    pub fn fuzzy_match(&self, text: &str, pattern: &str) -> (r: Option<(usize, usize)>)
        ensures
            r == if crate::ranking::is_subsequence(pattern@, text@) {
                Some((1usize, 1usize))
            } else {
                None::<(usize, usize)>
            },
    {
        let p = crate::text::chars_of(pattern);
        let t = crate::text::chars_of(text);
        if crate::ranking::subsequence_match(&p, &t) {
            Some((1, 1))
        } else {
            None
        }
    }

    /// Scores every stored name against `query` by the rule cascade (exact
    /// match, prefix, substring, subsequence, edit distance — see
    /// [`crate::ranking::spec_score`]). Names the cascade drops are left
    /// out; every other stored name appears exactly once, with its exact
    /// score, sorted by score descending and name ascending among equal
    /// scores.
    pub fn fuzzy_search(&self, query: &str) -> (r: Vec<(String, crate::score::Score)>)
        requires
            self.wf(),
        ensures
            forall|k: int|
                0 <= k < r@.len() ==> {
                    &&& self.stores((#[trigger] r@[k]).0@)
                    &&& crate::ranking::spec_score(r@[k].0@, query@) == Some(r@[k].1)
                    &&& r@[k].1.valid()
                },
            forall|v: Seq<char>| #[trigger]
                crate::ranking::name_count(r@, v) == (if self.stores(v)
                    && crate::ranking::spec_score(v, query@) is Some {
                    1nat
                } else {
                    0nat
                }),
            forall|x: int, y: int|
                #![trigger r@[x], r@[y]]
                0 <= x < y < r@.len() ==> crate::ranking::ranked_le(
                    r@[x].0@,
                    r@[x].1,
                    r@[y].0@,
                    r@[y].1,
                ) && r@[x].0@ != r@[y].0@,
    {
        let mut all: Vec<String> = Vec::new();
        Trie::collect_all_values(&self.root, &mut all);
        proof {
            lemma_collect_node(self.root, Seq::empty());
            assert forall|k: int|
                0 <= k < all@.len() implies (#[trigger] all@[k])@ == spec_collect(self.root)[k] by {
                assert(all@[0 + k]@ == spec_collect(self.root)[k]);
            }
            assert forall|v: Seq<char>| #[trigger]
                spec_collect(self.root).contains(v) implies self.stores(v) by {
                assert(v.skip(0) =~= v);
            }
        }
        let query_lower_s = crate::text::lowercase(query);
        let ql = crate::text::chars_of(query_lower_s.as_str());
        let qlen = query.unicode_len();
        let mut scored: Vec<(String, crate::score::Score)> = Vec::new();
        let mut j: usize = 0;
        while j < all.len()
            invariant
                j <= all@.len(),
                self.wf(),
                ql@ == crate::text::lower_of(query@),
                qlen == query@.len(),
                all@.len() == spec_collect(self.root).len(),
                forall|k: int|
                    0 <= k < all@.len() ==> (#[trigger] all@[k])@ == spec_collect(self.root)[k],
                sorted_lex(spec_collect(self.root)),
                forall|v: Seq<char>| #[trigger]
                    spec_collect(self.root).contains(v) ==> self.stores(v),
                forall|k: int|
                    0 <= k < scored@.len() ==> {
                        &&& self.stores((#[trigger] scored@[k]).0@)
                        &&& crate::ranking::spec_score(scored@[k].0@, query@) == Some(scored@[k].1)
                        &&& scored@[k].1.valid()
                    },
                forall|v: Seq<char>| #[trigger]
                    crate::ranking::name_count(scored@, v) == (if (exists|j2: int|
                        0 <= j2 < j && (#[trigger] all@[j2])@ == v) && crate::ranking::spec_score(
                        v,
                        query@,
                    ) is Some {
                        1nat
                    } else {
                        0nat
                    }),
            decreases all@.len() - j,
        {
            proof {
                assert(spec_collect(self.root).contains(spec_collect(self.root)[j as int]));
            }
            let name = all[j].clone();
            let ghost nv = name@;
            match crate::ranking::score_of(name.as_str(), &ql, qlen, Ghost(query@)) {
                Some(sc) => {
                    let ghost pre = scored@;
                    scored.push((name, sc));
                    proof {
                        assert(scored@.drop_last() =~= pre);
                        assert(scored@.last().0@ == nv && scored@.last().1 == sc);
                        assert forall|v: Seq<char>| #[trigger]
                            crate::ranking::name_count(scored@, v) == (if (exists|j2: int|
                                0 <= j2 < j + 1 && (#[trigger] all@[j2])@ == v)
                                && crate::ranking::spec_score(v, query@) is Some {
                                1nat
                            } else {
                                0nat
                            }) by {
                            if v == nv {
                                // `v` cannot also be an earlier name: the
                                // collected names ascend strictly.
                                if exists|j2: int| 0 <= j2 < j && (#[trigger] all@[j2])@ == v {
                                    let j2 = choose|j2: int|
                                        0 <= j2 < j && (#[trigger] all@[j2])@ == v;
                                    assert(lex_lt(
                                        spec_collect(self.root)[j2],
                                        spec_collect(self.root)[j as int],
                                    ));
                                    crate::text::lemma_lex_asym(v, v);
                                }
                                assert(crate::ranking::name_count(pre, v) == 0);
                                assert(all@[j as int]@ == v);
                            } else {
                                assert(crate::ranking::name_count(scored@, v)
                                    == crate::ranking::name_count(pre, v));
                                assert forall|j2: int|
                                    0 <= j2 < j + 1 && (#[trigger] all@[j2])@ == v implies j2
                                    < j by {}
                            }
                        }
                    }
                },
                None => {
                    proof {
                        assert forall|v: Seq<char>| #[trigger]
                            crate::ranking::name_count(scored@, v) == (if (exists|j2: int|
                                0 <= j2 < j + 1 && (#[trigger] all@[j2])@ == v)
                                && crate::ranking::spec_score(v, query@) is Some {
                                1nat
                            } else {
                                0nat
                            }) by {
                            if v == nv {
                                assert(crate::ranking::spec_score(v, query@) is None);
                            } else {
                                assert forall|j2: int|
                                    0 <= j2 < j + 1 && (#[trigger] all@[j2])@ == v implies j2
                                    < j by {}
                            }
                        }
                    }
                },
            }
            j = j + 1;
        }
        let ghost pairs = scored@;
        proof {
            assert forall|x: int, y: int|
                0 <= x < y < pairs.len() implies (#[trigger] pairs[x]).0@ != (
            #[trigger] pairs[y]).0@ by {
                if pairs[x].0@ == pairs[y].0@ {
                    assert(crate::ranking::name_count(pairs, pairs[x].0@) <= 1);
                    crate::ranking::lemma_name_count_unique(pairs, pairs[x].0@, x, y);
                }
            }
        }
        let sorted = crate::ranking::sort_ranked(scored);
        proof {
            crate::ranking::lemma_rearranged_names(pairs, sorted@);
            assert forall|k: int|
                0 <= k < sorted@.len() implies {
                &&& self.stores((#[trigger] sorted@[k]).0@)
                &&& crate::ranking::spec_score(sorted@[k].0@, query@) == Some(sorted@[k].1)
                &&& sorted@[k].1.valid()
            } by {
                assert(pairs.contains(sorted@[k]));
                let j2 = choose|j2: int| 0 <= j2 < pairs.len() && pairs[j2] == sorted@[k];
                assert(self.stores(pairs[j2].0@));
            }
            assert forall|v: Seq<char>| #[trigger]
                crate::ranking::name_count(sorted@, v) == (if self.stores(v)
                    && crate::ranking::spec_score(v, query@) is Some {
                    1nat
                } else {
                    0nat
                }) by {
                assert(crate::ranking::name_count(sorted@, v) == crate::ranking::name_count(
                    pairs,
                    v,
                ));
                if self.stores(v) {
                    lemma_count_in_collect(self.root, Seq::empty(), v);
                    assert(Seq::empty() + v =~= v);
                    let k = choose|k: int|
                        0 <= k < spec_collect(self.root).len() && spec_collect(self.root)[k] == v;
                    assert((#[trigger] all@[k])@ == v);
                } else {
                    if exists|j2: int|
                        0 <= j2 < all@.len() && (#[trigger] all@[j2])@ == v {
                        let j2 = choose|j2: int|
                            0 <= j2 < all@.len() && (#[trigger] all@[j2])@ == v;
                        assert(spec_collect(self.root).contains(spec_collect(self.root)[j2]));
                    }
                }
            }
        }
        sorted
    }

    /// All stored names that begin with the prefix `s`, ordered by
    /// descending insertion count and, among equal counts, ascending name.
    pub fn _search(&mut self, s: &str) -> (r: Vec<String>)
        requires
            old(self).wf(),
        ensures
            *final(self) == *old(self),
            forall|k: int|
                0 <= k < r@.len() ==> old(self).stores((#[trigger] r@[k])@) && s@.is_prefix_of(
                    r@[k]@,
                ),
            forall|v: Seq<char>|
                old(self).stores(v) && s@.is_prefix_of(v) ==> exists|k: int|
                    0 <= k < r@.len() && (#[trigger] r@[k])@ == v,
            forall|x: int, y: int|
                #![trigger r@[x], r@[y]]
                0 <= x < y < r@.len() ==> old(self).count_of(r@[y]@) < old(self).count_of(r@[x]@)
                    || (old(self).count_of(r@[y]@) == old(self).count_of(r@[x]@) && lex_lt(
                    r@[x]@,
                    r@[y]@,
                )),
            forall|x: int, y: int| 0 <= x < y < r@.len() ==> r@[x]@ != r@[y]@,
    {
        let cs = crate::text::chars_of(s);
        let mut current: &Node = &self.root;
        let mut i: usize = 0;
        proof {
            assert(cs@.take(0) =~= Seq::<char>::empty());
            assert forall|d: Seq<char>|
                node_count(*current, d) == node_count(self.root, cs@.take(0) + d) by {
                assert(cs@.take(0) + d =~= d);
            }
        }
        while i < cs.len()
            invariant
                i <= cs@.len(),
                cs@ == s@,
                self.wf(),
                current.wf(cs@.take(i as int)),
                forall|d: Seq<char>| #[trigger]
                    node_count(*current, d) == node_count(self.root, cs@.take(i as int) + d),
            decreases cs@.len() - i,
        {
            let c = cs[i];
            match search_children(&current.children, c) {
                Ok(idx) => {
                    let ghost prev = *current;
                    proof {
                        assert(current.children@[idx as int].wf(
                            cs@.take(i as int).push(current.children@[idx as int].key.unwrap()),
                        ));
                        assert(cs@.take(i as int).push(c) =~= cs@.take(i + 1 as int));
                    }
                    current = &current.children[idx];
                    proof {
                        assert forall|d: Seq<char>| #[trigger]
                            node_count(*current, d) == node_count(
                            self.root,
                            cs@.take(i + 1 as int) + d,
                        ) by {
                            let e = seq![c] + d;
                            assert(e[0] == c && e.skip(1) =~= d);
                            assert(node_count(prev, e) == node_count(*current, d));
                            assert(cs@.take(i as int) + e =~= cs@.take(i + 1 as int) + d);
                        }
                    }
                },
                Err(_) => {
                    proof {
                        assert forall|v: Seq<char>|
                            old(self).stores(v) && s@.is_prefix_of(v) implies false by {
                            let d = v.skip(i as int);
                            assert(cs@.take(i as int) + d =~= v);
                            assert(d[0] == v[i as int]);
                            assert(v[i as int] == c) by {
                                assert(s@.subrange(0, s@.len() as int)[i as int] == v[i as int]);
                            }
                            assert(node_count(*current, d) == 0) by {
                                assert(find_key(current.children@, c) is None);
                            }
                        }
                    }
                    return Vec::new();
                },
            }
            i = i + 1;
        }
        proof {
            assert(cs@.take(cs@.len() as int) =~= s@);
        }
        let subtree: &Node = current;
        let mut names: Vec<String> = Vec::new();
        Trie::collect_all_values(subtree, &mut names);
        proof {
            lemma_collect_node(*subtree, s@);
            assert forall|k: int|
                0 <= k < names@.len() implies (#[trigger] names@[k])@ == spec_collect(*subtree)[k] by {
                assert(names@[0 + k]@ == spec_collect(*subtree)[k]);
            }
        }
        let mut scored: Vec<(String, crate::score::Score)> = Vec::new();
        let mut j: usize = 0;
        while j < names.len()
            invariant
                j <= names@.len(),
                self.wf(),
                subtree.wf(s@),
                forall|d: Seq<char>| #[trigger]
                    node_count(*subtree, d) == node_count(self.root, s@ + d),
                names@.len() == spec_collect(*subtree).len(),
                forall|k: int|
                    0 <= k < names@.len() ==> (#[trigger] names@[k])@ == spec_collect(*subtree)[k],
                sorted_lex(spec_collect(*subtree)),
                forall|v: Seq<char>| #[trigger]
                    spec_collect(*subtree).contains(v) ==> s@.is_prefix_of(v) && node_count(
                        *subtree,
                        v.skip(s@.len() as int),
                    ) > 0,
                scored@.len() == j,
                forall|k: int|
                    0 <= k < j ==> (#[trigger] scored@[k]).0 == names@[k] && scored@[k].1.den == 1
                        && scored@[k].1.num == self.count_of(scored@[k].0@)
                        && scored@[k].1.valid(),
            decreases names@.len() - j,
        {
            proof {
                assert(spec_collect(*subtree).contains(spec_collect(*subtree)[j as int]));
                assert(names@[j as int]@ == spec_collect(*subtree)[j as int]);
                let v = names@[j as int]@;
                assert(s@ + v.skip(s@.len() as int) =~= v);
            }
            let name = names[j].clone();
            let count = self.stored_count(name.as_str());
            let sc = crate::score::Score { num: count as u128, den: 1 };
            scored.push((name, sc));
            j = j + 1;
        }
        let ghost pairs = scored@;
        proof {
            // The collected names ascend strictly, so the scored entries
            // carry pairwise distinct names.
            assert forall|x: int, y: int|
                0 <= x < y < pairs.len() implies (#[trigger] pairs[x]).0@ != (
            #[trigger] pairs[y]).0@ by {
                assert(lex_lt(spec_collect(*subtree)[x], spec_collect(*subtree)[y]));
                crate::text::lemma_lex_asym(pairs[x].0@, pairs[y].0@);
            }
        }
        let sorted = crate::ranking::sort_ranked(scored);
        proof {
            crate::ranking::lemma_rearranged_names(pairs, sorted@);
        }
        let mut out: Vec<String> = Vec::new();
        let mut j: usize = 0;
        while j < sorted.len()
            invariant
                j <= sorted@.len(),
                out@.len() == j,
                forall|k: int| 0 <= k < j ==> (#[trigger] out@[k])@ == sorted@[k].0@,
            decreases sorted@.len() - j,
        {
            out.push(sorted[j].0.clone());
            j = j + 1;
        }
        proof {
            let root = old(self).root;
            // Each sorted entry is one of the scored entries, so it carries
            // a collected name together with that name's insertion count.
            assert forall|k: int| 0 <= k < sorted@.len() implies {
                &&& spec_collect(*subtree).contains((#[trigger] sorted@[k]).0@)
                &&& sorted@[k].1.den == 1
                &&& sorted@[k].1.num == old(self).count_of(sorted@[k].0@)
            } by {
                assert(pairs.contains(sorted@[k]));
                let j2 = choose|j2: int| 0 <= j2 < pairs.len() && pairs[j2] == sorted@[k];
                assert(pairs[j2].0@ == spec_collect(*subtree)[j2]);
                assert(spec_collect(*subtree).contains(spec_collect(*subtree)[j2]));
            }
            // Membership: a name is in the output exactly when it is stored
            // with the prefix.
            assert forall|k: int|
                0 <= k < out@.len() implies old(self).stores((#[trigger] out@[k])@)
                && s@.is_prefix_of(out@[k]@) by {
                let v = out@[k]@;
                assert(spec_collect(*subtree).contains(v));
                assert(s@ + v.skip(s@.len() as int) =~= v);
                assert(node_count(root, v) == node_count(*subtree, v.skip(s@.len() as int)));
            }
            assert forall|v: Seq<char>|
                old(self).stores(v) && s@.is_prefix_of(v) implies exists|k: int|
                0 <= k < out@.len() && (#[trigger] out@[k])@ == v by {
                assert(s@ + v.skip(s@.len() as int) =~= v);
                assert(node_count(*subtree, v.skip(s@.len() as int)) > 0);
                lemma_count_in_collect(*subtree, s@, v.skip(s@.len() as int));
                let j2 = choose|j2: int|
                    0 <= j2 < spec_collect(*subtree).len() && spec_collect(*subtree)[j2] == v;
                assert(pairs[j2].0@ == v);
                crate::ranking::lemma_name_count_contains(pairs, v);
                crate::ranking::lemma_name_count_contains(sorted@, v);
                let k = choose|k: int| 0 <= k < sorted@.len() && (#[trigger] sorted@[k]).0@ == v;
                assert(out@[k]@ == v);
            }
            // Order: the ranked order on count-valued scores is exactly
            // count descending, names ascending.
            assert forall|x: int, y: int|
                #![trigger out@[x], out@[y]]
                0 <= x < y < out@.len() implies old(self).count_of(out@[y]@) < old(
                self,
            ).count_of(out@[x]@) || (old(self).count_of(out@[y]@) == old(self).count_of(out@[x]@)
                && lex_lt(out@[x]@, out@[y]@)) by {
                let sx = sorted@[x];
                let sy = sorted@[y];
                assert(sx.1.den == 1 && sx.1.num == old(self).count_of(sx.0@));
                assert(sy.1.den == 1 && sy.1.num == old(self).count_of(sy.0@));
                assert(crate::ranking::ranked_le(sx.0@, sx.1, sy.0@, sy.1));
                assert(sx.0@ != sy.0@);
                assert(out@[x]@ == sx.0@ && out@[y]@ == sy.0@);
                if crate::score::rat_lt(sy.1, sx.1) {
                    assert((sy.1.num as int) * (sx.1.den as int) == sy.1.num as int);
                    assert((sx.1.num as int) * (sy.1.den as int) == sx.1.num as int);
                } else {
                    assert(crate::score::rat_eq(sx.1, sy.1));
                    assert((sx.1.num as int) * (sy.1.den as int) == sx.1.num as int);
                    assert((sy.1.num as int) * (sx.1.den as int) == sy.1.num as int);
                    assert(lex_lt(sx.0@, sy.0@));
                }
            }
        }
        out
    }
}

/// Inserts the suffix `cs[i..]` below `node`, which sits at path `stem`;
/// `v` is the full string, stored at the terminal. Exactly the count of the
/// inserted suffix rises.
fn insert_rec(node: &mut Node, cs: &Vec<char>, i: usize, v: String, Ghost(stem): Ghost<Seq<char>>)
    requires
        old(node).wf(stem),
        i <= cs@.len(),
        v@ == stem + cs@.skip(i as int),
        node_count(*old(node), cs@.skip(i as int)) < usize::MAX,
    ensures
        final(node).wf(stem),
        final(node).key == old(node).key,
        node_count(*final(node), cs@.skip(i as int)) == node_count(*old(node), cs@.skip(i as int))
            + 1,
        forall|d: Seq<char>|
            d != cs@.skip(i as int) ==> node_count(*final(node), d) == node_count(*old(node), d),
    decreases cs@.len() - i,
{
    if i == cs.len() {
        proof {
            assert(cs@.skip(i as int).len() == 0);
            assert(stem + cs@.skip(i as int) =~= stem);
        }
        node.count = node.count + 1;
        node.value = Some(v);
        proof {
            assert forall|d: Seq<char>|
                d != cs@.skip(i as int) implies node_count(*node, d) == node_count(
                *old(node),
                d,
            ) by {
                if d.len() == 0 {
                    assert(d =~= cs@.skip(i as int));
                }
                assert(node.children@ == old(node).children@);
            }
        }
    } else {
        let c = cs[i];
        proof {
            assert(cs@.skip(i as int)[0] == c);
            assert(cs@.skip(i as int).skip(1) =~= cs@.skip(i + 1 as int));
            assert(seq![c] + cs@.skip(i + 1 as int) =~= cs@.skip(i as int));
            assert((stem + cs@.skip(i as int)) =~= (stem.push(c) + cs@.skip(i + 1 as int)));
        }
        match search_children(&node.children, c) {
            Ok(idx) => {
                let ghost children_pre = node.children@;
                let ghost child_pre = node.children@[idx as int];
                proof {
                    assert(child_pre.wf(stem.push(c)));
                    assert(node_count(*old(node), cs@.skip(i as int)) == node_count(
                        child_pre,
                        cs@.skip(i + 1 as int),
                    ));
                }
                let mut child = node.children.remove(idx);
                insert_rec(&mut child, cs, i + 1, v, Ghost(stem.push(c)));
                node.children.insert(idx, child);
                proof {
                    assert(node.children@ =~= children_pre.update(idx as int, child));
                    lemma_insert_updated_child(
                        *old(node),
                        *node,
                        idx as int,
                        child_pre,
                        child,
                        c,
                        stem,
                        cs@.skip(i as int),
                    );
                }
            },
            Err(idx) => {
                let ghost children_pre = node.children@;
                let mut child = Node::with_key(c);
                insert_rec(&mut child, cs, i + 1, v, Ghost(stem.push(c)));
                node.children.insert(idx, child);
                proof {
                    lemma_insert_new_child(
                        *old(node),
                        *node,
                        idx as int,
                        child,
                        c,
                        stem,
                        cs@.skip(i as int),
                    );
                }
            },
        }
    }
}

/// The names stored at and below `node`, in pre-order: the node's own value
/// first, then each child's names in key order. With sorted children this is
/// lexicographic order.
pub open spec fn spec_collect(node: Node) -> Seq<Seq<char>>
    decreases node, 1int,
{
    let own: Seq<Seq<char>> = if node.count > 0 && node.value is Some {
        seq![node.value.unwrap()@]
    } else {
        Seq::empty()
    };
    own + collect_children(node.children@)
}

/// The names stored below a row of children, in order.
pub open spec fn collect_children(children: Seq<Node>) -> Seq<Seq<char>>
    decreases children, 0int,
{
    if children.len() == 0 {
        Seq::empty()
    } else {
        spec_collect(children[0]) + collect_children(children.skip(1))
    }
}

/// A strictly ascending sequence of names.
pub open spec fn sorted_lex(s: Seq<Seq<char>>) -> bool {
    forall|x: int, y: int| 0 <= x < y < s.len() ==> lex_lt(s[x], s[y])
}

/// Concatenating two ascending blocks stays ascending when everything in the
/// first sits below everything in the second.
proof fn lemma_sorted_concat(s1: Seq<Seq<char>>, s2: Seq<Seq<char>>)
    requires
        sorted_lex(s1),
        sorted_lex(s2),
        forall|a: Seq<char>, b: Seq<char>|
            s1.contains(a) && s2.contains(b) ==> lex_lt(a, b),
    ensures
        sorted_lex(s1 + s2),
{
    assert forall|x: int, y: int| 0 <= x < y < (s1 + s2).len() implies lex_lt(
        (s1 + s2)[x],
        (s1 + s2)[y],
    ) by {
        if x < s1.len() && y >= s1.len() {
            assert(s1.contains(s1[x]));
            assert(s2.contains(s2[y - s1.len()]));
        }
    }
}

/// Appending one more child appends its names.
proof fn lemma_collect_children_snoc(children: Seq<Node>, x: Node)
    ensures
        collect_children(children.push(x)) == collect_children(children) + spec_collect(x),
    decreases children.len(),
{
    if children.len() == 0 {
        assert(children.push(x)[0] == x);
        assert(children.push(x).skip(1) =~= Seq::<Node>::empty());
        assert(collect_children(Seq::<Node>::empty()) =~= Seq::<Seq<char>>::empty());
        assert(collect_children(children.push(x)) =~= spec_collect(x));
        assert(collect_children(children) + spec_collect(x) =~= spec_collect(x));
    } else {
        assert(children.push(x)[0] == children[0]);
        assert(children.push(x).skip(1) =~= children.skip(1).push(x));
        lemma_collect_children_snoc(children.skip(1), x);
        assert(spec_collect(children[0]) + (collect_children(children.skip(1)) + spec_collect(x))
            =~= (spec_collect(children[0]) + collect_children(children.skip(1))) + spec_collect(
            x,
        ));
    }
}

/// A name below one child is among the names below the row.
proof fn lemma_collect_children_lift(children: Seq<Node>, i: int, v: Seq<char>)
    requires
        0 <= i < children.len(),
        spec_collect(children[i]).contains(v),
    ensures
        collect_children(children).contains(v),
    decreases children.len(),
{
    if i == 0 {
        let k = choose|k: int| 0 <= k < spec_collect(children[0]).len() && spec_collect(
            children[0],
        )[k] == v;
        assert(collect_children(children)[k] == v);
    } else {
        assert(children.skip(1)[i - 1] == children[i]);
        lemma_collect_children_lift(children.skip(1), i - 1, v);
        let k = choose|k: int| 0 <= k < collect_children(children.skip(1)).len()
            && collect_children(children.skip(1))[k] == v;
        assert(collect_children(children)[spec_collect(children[0]).len() + k] == v);
    }
}

/// Below a well-formed node, the collected names are strictly ascending, and
/// each extends the node's path by a stored suffix.
pub proof fn lemma_collect_node(node: Node, stem: Seq<char>)
    requires
        node.wf(stem),
    ensures
        sorted_lex(spec_collect(node)),
        forall|v: Seq<char>| #[trigger]
            spec_collect(node).contains(v) ==> stem.is_prefix_of(v) && node_count(
                node,
                v.skip(stem.len() as int),
            ) > 0,
    decreases node, 1int,
{
    lemma_collect_children_node(node.children@, stem);
    let own: Seq<Seq<char>> = if node.count > 0 && node.value is Some {
        seq![node.value.unwrap()@]
    } else {
        Seq::empty()
    };
    assert forall|a: Seq<char>, b: Seq<char>|
        own.contains(a) && collect_children(node.children@).contains(b) implies lex_lt(a, b) by {
        assert(a == stem);
        let i = choose|i: int|
            0 <= i < node.children@.len() && (stem.push(node.children@[i].key.unwrap())).is_prefix_of(
                b,
            ) && node_count(node.children@[i], b.skip(stem.len() as int + 1)) > 0;
        crate::text::lemma_lex_proper_prefix(stem, b);
    }
    lemma_sorted_concat(own, collect_children(node.children@));
    assert forall|v: Seq<char>| #[trigger]
        spec_collect(node).contains(v) implies stem.is_prefix_of(v) && node_count(
        node,
        v.skip(stem.len() as int),
    ) > 0 by {
        let k = choose|k: int| 0 <= k < spec_collect(node).len() && spec_collect(node)[k] == v;
        if k < own.len() {
            assert(v == stem);
            assert(stem =~= stem.subrange(0, stem.len() as int));
            assert(v.skip(stem.len() as int).len() == 0);
        } else {
            assert(collect_children(node.children@)[k - own.len()] == v);
            assert(collect_children(node.children@).contains(v));
            let i = choose|i: int|
                0 <= i < node.children@.len() && (stem.push(
                    node.children@[i].key.unwrap(),
                )).is_prefix_of(v) && node_count(node.children@[i], v.skip(stem.len() as int + 1)) > 0;
            let c = node.children@[i].key.unwrap();
            assert(stem.is_prefix_of(v)) by {
                assert(stem.push(c) =~= v.subrange(0, stem.len() as int + 1));
                assert(stem =~= v.subrange(0, stem.len() as int));
            }
            let d = v.skip(stem.len() as int);
            assert(d[0] == c) by {
                assert(v[stem.len() as int] == stem.push(c)[stem.len() as int]);
            }
            lemma_find_key_unique(node.children@, c, i);
            assert(d.skip(1) =~= v.skip(stem.len() as int + 1));
            assert(node_count(node, d) == node_count(node.children@[i], d.skip(1)));
        }
    }
}

/// Below a sorted row of well-formed children, the collected names are
/// strictly ascending, and each belongs to exactly one child, whose key it
/// carries right after the shared path.
pub proof fn lemma_collect_children_node(children: Seq<Node>, stem: Seq<char>)
    requires
        keys_sorted(children),
        forall|i: int|
            0 <= i < children.len() ==> (#[trigger] children[i]).wf(
                stem.push(children[i].key.unwrap()),
            ),
    ensures
        sorted_lex(collect_children(children)),
        forall|v: Seq<char>| #[trigger]
            collect_children(children).contains(v) ==> exists|i: int|
                0 <= i < children.len() && (stem.push(
                    children[i].key.unwrap(),
                )).is_prefix_of(v) && node_count(children[i], v.skip(stem.len() as int + 1)) > 0,
    decreases children, 0int,
{
    if children.len() > 0 {
        let c0 = children[0];
        let k0 = c0.key.unwrap();
        lemma_collect_node(c0, stem.push(k0));
        let rest = children.skip(1);
        assert forall|x: int| 0 <= x < rest.len() implies (#[trigger] rest[x]).key is Some by {
            assert(rest[x] == children[x + 1]);
        }
        assert forall|x: int, y: int|
            0 <= x < y < rest.len() implies ((#[trigger] rest[x]).key.unwrap() as u32) < ((
        #[trigger] rest[y]).key.unwrap() as u32) by {
            assert(rest[x] == children[x + 1] && rest[y] == children[y + 1]);
        }
        assert forall|x: int| 0 <= x < rest.len() implies (#[trigger] rest[x]).wf(
            stem.push(rest[x].key.unwrap()),
        ) by {
            assert(rest[x] == children[x + 1]);
            assert(children[x + 1].wf(stem.push(children[x + 1].key.unwrap())));
        }
        lemma_collect_children_node(rest, stem);
        // Everything below the first child sits before everything below the rest.
        assert forall|a: Seq<char>, b: Seq<char>|
            spec_collect(c0).contains(a) && collect_children(rest).contains(b) implies lex_lt(
            a,
            b,
        ) by {
            assert((stem.push(k0)).is_prefix_of(a));
            let j = choose|j: int|
                0 <= j < rest.len() && (stem.push(rest[j].key.unwrap())).is_prefix_of(b)
                    && node_count(rest[j], b.skip(stem.len() as int + 1)) > 0;
            assert(rest[j] == children[j + 1]);
            assert((k0 as u32) < (rest[j].key.unwrap() as u32));
            crate::text::lemma_lex_diverge(stem, k0, rest[j].key.unwrap(), a, b);
        }
        lemma_sorted_concat(spec_collect(c0), collect_children(rest));
        assert forall|v: Seq<char>| #[trigger]
            collect_children(children).contains(v) implies exists|i: int|
            0 <= i < children.len() && (stem.push(children[i].key.unwrap())).is_prefix_of(v)
                && node_count(children[i], v.skip(stem.len() as int + 1)) > 0 by {
            let k = choose|k: int|
                0 <= k < collect_children(children).len() && collect_children(children)[k] == v;
            if k < spec_collect(c0).len() {
                assert(spec_collect(c0).contains(v));
                assert((stem.push(k0)).is_prefix_of(v) && node_count(
                    c0,
                    v.skip(stem.push(k0).len() as int),
                ) > 0);
                assert(0 <= 0 < children.len() && (stem.push(
                    children[0].key.unwrap(),
                )).is_prefix_of(v) && node_count(children[0], v.skip(stem.len() as int + 1)) > 0);
            } else {
                assert(collect_children(rest)[k - spec_collect(c0).len()] == v);
                assert(collect_children(rest).contains(v));
                let j = choose|j: int|
                    0 <= j < rest.len() && (stem.push(rest[j].key.unwrap())).is_prefix_of(v)
                        && node_count(rest[j], v.skip(stem.len() as int + 1)) > 0;
                assert(rest[j] == children[j + 1]);
                assert(0 <= j + 1 < children.len() && (stem.push(
                    children[j + 1].key.unwrap(),
                )).is_prefix_of(v) && node_count(children[j + 1], v.skip(stem.len() as int + 1)) > 0);
            }
        }
    }
}

/// Every stored suffix appears among the collected names, attached to the
/// node's path.
pub proof fn lemma_count_in_collect(node: Node, stem: Seq<char>, d: Seq<char>)
    requires
        node.wf(stem),
        node_count(node, d) > 0,
    ensures
        spec_collect(node).contains(stem + d),
    decreases d.len(),
{
    let own: Seq<Seq<char>> = if node.count > 0 && node.value is Some {
        seq![node.value.unwrap()@]
    } else {
        Seq::empty()
    };
    if d.len() == 0 {
        assert(node.count > 0);
        assert(stem + d =~= stem);
        assert(spec_collect(node)[0] == stem);
    } else {
        let i = find_key(node.children@, d[0]).unwrap();
        lemma_find_key_props(node.children@, d[0]);
        let child = node.children@[i];
        assert(child.wf(stem.push(d[0])));
        lemma_count_in_collect(child, stem.push(d[0]), d.skip(1));
        assert(stem.push(d[0]) + d.skip(1) =~= stem + d);
        lemma_collect_children_lift(node.children@, i, stem + d);
        let k = choose|k: int|
            0 <= k < collect_children(node.children@).len() && collect_children(node.children@)[k]
                == stem + d;
        assert(spec_collect(node)[own.len() + k] == stem + d);
    }
}

impl Trie {
    /// Gathers every name stored at or below `node`, appending to `values`
    /// in pre-order (lexicographic order, for a well-formed node).
    pub fn collect_all_values(node: &Node, values: &mut Vec<String>)
    ensures
        final(values)@.len() == old(values)@.len() + spec_collect(*node).len(),
        forall|k: int| 0 <= k < old(values)@.len() ==> final(values)@[k] == old(values)@[k],
        forall|k: int|
            0 <= k < spec_collect(*node).len() ==> (#[trigger] final(values)@[old(values)@.len()
                + k])@ == spec_collect(*node)[k],
    decreases *node,
{
    if node.count > 0 {
        if let Some(value) = &node.value {
            values.push(value.clone());
        }
    }
    let ghost base = values@;
    let ghost own: Seq<Seq<char>> = if node.count > 0 && node.value is Some {
        seq![node.value.unwrap()@]
    } else {
        Seq::empty()
    };
    let mut i: usize = 0;
    while i < node.children.len()
        invariant
            i <= node.children@.len(),
            values@.len() == base.len() + collect_children(node.children@.take(i as int)).len(),
            forall|k: int| 0 <= k < base.len() ==> values@[k] == base[k],
            forall|k: int|
                0 <= k < collect_children(node.children@.take(i as int)).len() ==> (
                #[trigger] values@[base.len() + k])@ == collect_children(
                    node.children@.take(i as int),
                )[k],
        decreases node.children@.len() - i,
    {
        let ghost pre_len = values@.len();
        let ghost pre_vals = values@;
        Trie::collect_all_values(&node.children[i], values);
        proof {
            assert(node.children@.take(i + 1 as int) =~= node.children@.take(i as int).push(
                node.children@[i as int],
            ));
            lemma_collect_children_snoc(node.children@.take(i as int), node.children@[i as int]);
            let cc_i = collect_children(node.children@.take(i as int));
            let cc_i1 = collect_children(node.children@.take(i + 1 as int));
            assert(cc_i1 == cc_i + spec_collect(node.children@[i as int]));
            assert forall|k: int| 0 <= k < base.len() implies values@[k] == base[k] by {
                assert(values@[k] == pre_vals[k]);
            }
            assert forall|k: int| 0 <= k < cc_i1.len() implies (#[trigger] values@[base.len()
                + k])@ == cc_i1[k] by {
                if k < cc_i.len() {
                    assert(values@[base.len() + k] == pre_vals[base.len() + k]);
                } else {
                    assert(values@[pre_len + (k - cc_i.len())]@ == spec_collect(
                        node.children@[i as int],
                    )[k - cc_i.len()]);
                }
            }
        }
        i = i + 1;
    }
    proof {
        assert(node.children@.take(node.children@.len() as int) =~= node.children@);
        assert(spec_collect(*node) == own + collect_children(node.children@));
        assert forall|k: int| 0 <= k < old(values)@.len() implies values@[k] == old(values)@[k] by {
            assert(values@[k] == base[k]);
        }
        assert forall|k: int| 0 <= k < spec_collect(*node).len() implies (
        #[trigger] values@[old(values)@.len() + k])@ == spec_collect(*node)[k] by {
            if k < own.len() {
                assert(values@[old(values)@.len() + k] == base[old(values)@.len() + k]);
                assert(base[old(values)@.len() as int]@ == own[0]);
            } else {
                assert(values@[base.len() + (k - own.len())]@ == collect_children(
                    node.children@,
                )[k - own.len()]);
            }
        }
    }
}

}

/// Replacing one child by an updated child with the same key moves exactly
/// the counts that the child moves, one character deeper.
proof fn lemma_insert_updated_child(
    pre: Node,
    post: Node,
    idx: int,
    child_pre: Node,
    child_post: Node,
    c: char,
    stem: Seq<char>,
    suffix: Seq<char>,
)
    requires
        pre.wf(stem),
        0 <= idx < pre.children@.len(),
        pre.children@[idx] == child_pre,
        child_pre.key == Some(c),
        find_key(pre.children@, c) == Some(idx),
        post.children@ == pre.children@.update(idx, child_post),
        post.count == pre.count,
        post.value == pre.value,
        child_post.key == child_pre.key,
        child_post.wf(stem.push(c)),
        suffix.len() > 0,
        suffix[0] == c,
        node_count(child_post, suffix.skip(1)) == node_count(child_pre, suffix.skip(1)) + 1,
        forall|d: Seq<char>|
            d != suffix.skip(1) ==> node_count(child_post, d) == node_count(child_pre, d),
    ensures
        post.wf(stem),
        node_count(post, suffix) == node_count(pre, suffix) + 1,
        forall|d: Seq<char>| d != suffix ==> node_count(post, d) == node_count(pre, d),
{
    assert forall|x: int| 0 <= x < post.children@.len() implies (#[trigger] post.children@[x]).key
        is Some by {
        if x != idx {
            assert(post.children@[x] == pre.children@[x]);
        }
    }
    assert forall|x: int, y: int|
        0 <= x < y < post.children@.len() implies ((#[trigger] post.children@[x]).key.unwrap()
        as u32) < ((#[trigger] post.children@[y]).key.unwrap() as u32) by {
        assert(post.children@[x].key == pre.children@[x].key);
        assert(post.children@[y].key == pre.children@[y].key);
    }
    assert forall|x: int| 0 <= x < post.children@.len() implies (#[trigger] post.children@[x]).wf(
        stem.push(post.children@[x].key.unwrap()),
    ) by {
        if x != idx {
            assert(post.children@[x] == pre.children@[x]);
            assert(pre.children@[x].wf(stem.push(pre.children@[x].key.unwrap())));
        }
    }
    assert(post.wf(stem));
    lemma_find_key_unique(post.children@, c, idx);
    assert(node_count(post, suffix) == node_count(child_post, suffix.skip(1)));
    assert(node_count(pre, suffix) == node_count(child_pre, suffix.skip(1)));
    assert forall|d: Seq<char>| d != suffix implies node_count(post, d) == node_count(pre, d) by {
        if d.len() == 0 {
        } else if d[0] == c {
            lemma_find_key_unique(post.children@, c, idx);
            assert(d.skip(1) != suffix.skip(1)) by {
                if d.skip(1) == suffix.skip(1) {
                    assert forall|k: int| 0 <= k < d.len() implies d[k] == suffix[k] by {
                        if k > 0 {
                            assert(d.skip(1)[k - 1] == d[k]);
                            assert(suffix.skip(1)[k - 1] == suffix[k]);
                        }
                    }
                    assert(d =~= suffix);
                }
            }
            assert(node_count(post, d) == node_count(child_post, d.skip(1)));
            assert(node_count(pre, d) == node_count(child_pre, d.skip(1)));
        } else {
            lemma_find_key_props(pre.children@, d[0]);
            lemma_find_key_props(post.children@, d[0]);
            match find_key(pre.children@, d[0]) {
                Some(j) => {
                    assert(pre.children@[j].key == Some(d[0]));
                    assert(j != idx);
                    assert(post.children@[j] == pre.children@[j]);
                    lemma_find_key_unique(post.children@, d[0], j);
                },
                None => {
                    match find_key(post.children@, d[0]) {
                        Some(j) => {
                            assert(post.children@[j].key == Some(d[0]));
                            assert(j != idx);
                            assert(pre.children@[j].key == Some(d[0]));
                        },
                        None => {},
                    }
                },
            }
        }
    }
}

/// Inserting a brand-new child at its sorted position adds exactly the
/// counts that the child holds, one character deeper.
proof fn lemma_insert_new_child(
    pre: Node,
    post: Node,
    idx: int,
    child: Node,
    c: char,
    stem: Seq<char>,
    suffix: Seq<char>,
)
    requires
        pre.wf(stem),
        0 <= idx <= pre.children@.len(),
        find_key(pre.children@, c) is None,
        forall|k: int| 0 <= k < idx ==> ((#[trigger] pre.children@[k]).key.unwrap() as u32) < c
            as u32,
        forall|k: int|
            idx <= k < pre.children@.len() ==> (c as u32) < ((
        #[trigger] pre.children@[k]).key.unwrap() as u32),
        post.children@ == pre.children@.insert(idx, child),
        post.count == pre.count,
        post.value == pre.value,
        child.key == Some(c),
        child.wf(stem.push(c)),
        suffix.len() > 0,
        suffix[0] == c,
        node_count(child, suffix.skip(1)) == 1,
        forall|d: Seq<char>| d != suffix.skip(1) ==> node_count(child, d) == 0,
    ensures
        post.wf(stem),
        node_count(post, suffix) == node_count(pre, suffix) + 1,
        forall|d: Seq<char>| d != suffix ==> node_count(post, d) == node_count(pre, d),
{
    let n = pre.children@.len() as int;
    assert forall|x: int| 0 <= x < post.children@.len() implies (#[trigger] post.children@[x]).key
        is Some by {
        if x < idx {
            assert(post.children@[x] == pre.children@[x]);
        } else if x == idx {
        } else {
            assert(post.children@[x] == pre.children@[x - 1]);
        }
    }
    assert forall|x: int, y: int|
        0 <= x < y < post.children@.len() implies ((#[trigger] post.children@[x]).key.unwrap()
        as u32) < ((#[trigger] post.children@[y]).key.unwrap() as u32) by {
        if x < idx {
            assert(post.children@[x] == pre.children@[x]);
        } else if x > idx {
            assert(post.children@[x] == pre.children@[x - 1]);
        }
        if y < idx {
            assert(post.children@[y] == pre.children@[y]);
        } else if y > idx {
            assert(post.children@[y] == pre.children@[y - 1]);
        }
    }
    assert forall|x: int| 0 <= x < post.children@.len() implies (#[trigger] post.children@[x]).wf(
        stem.push(post.children@[x].key.unwrap()),
    ) by {
        if x < idx {
            assert(post.children@[x] == pre.children@[x]);
            assert(pre.children@[x].wf(stem.push(pre.children@[x].key.unwrap())));
        } else if x > idx {
            assert(post.children@[x] == pre.children@[x - 1]);
            assert(pre.children@[x - 1].wf(stem.push(pre.children@[x - 1].key.unwrap())));
        }
    }
    assert(post.wf(stem));
    lemma_find_key_unique(post.children@, c, idx);
    assert(node_count(post, suffix) == node_count(child, suffix.skip(1)));
    assert(node_count(pre, suffix) == 0);
    assert forall|d: Seq<char>| d != suffix implies node_count(post, d) == node_count(pre, d) by {
        if d.len() == 0 {
        } else if d[0] == c {
            assert(d.skip(1) != suffix.skip(1)) by {
                if d.skip(1) == suffix.skip(1) {
                    assert forall|k: int| 0 <= k < d.len() implies d[k] == suffix[k] by {
                        if k > 0 {
                            assert(d.skip(1)[k - 1] == d[k]);
                            assert(suffix.skip(1)[k - 1] == suffix[k]);
                        }
                    }
                    assert(d =~= suffix);
                }
            }
            assert(node_count(post, d) == node_count(child, d.skip(1)));
            assert(node_count(child, d.skip(1)) == 0);
            assert(node_count(pre, d) == 0);
        } else {
            lemma_find_key_props(pre.children@, d[0]);
            lemma_find_key_props(post.children@, d[0]);
            match find_key(pre.children@, d[0]) {
                Some(j) => {
                    assert(pre.children@[j].key == Some(d[0]));
                    let j2 = if j < idx {
                        j
                    } else {
                        j + 1
                    };
                    assert(post.children@[j2] == pre.children@[j]);
                    lemma_find_key_unique(post.children@, d[0], j2);
                },
                None => {
                    match find_key(post.children@, d[0]) {
                        Some(j) => {
                            assert(post.children@[j].key == Some(d[0]));
                            assert(j != idx);
                            let j2 = if j < idx {
                                j
                            } else {
                                j - 1
                            };
                            assert(pre.children@[j2].key == Some(d[0]));
                        },
                        None => {},
                    }
                },
            }
        }
    }
}

} // verus!
