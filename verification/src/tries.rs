//! An alternative trie over a character-keyed map.
//!
//! Where [`crate::trie::Trie`] keeps children in a sorted vector and stores
//! full names with counts, this structure keeps children in a hash map keyed
//! by the character's scalar value and only marks which paths end a word.

use vstd::prelude::*;
use std::collections::HashMap;

verus! {

broadcast use vstd::std_specs::hash::group_hash_axioms;

/// One character position: its character, whether a word ends here, and the
/// children, keyed by character scalar value.
#[derive(Debug)]
pub struct TriesNode {
    pub value: Option<char>,
    pub is_final: bool,
    pub child_nodes: HashMap<u32, TriesNode>,
}

/// Whether the characters of `s` spell a path of children below `node`.
pub open spec fn has_path(node: TriesNode, s: Seq<char>) -> bool
    decreases s.len(),
{
    s.len() == 0 || (node.child_nodes@.contains_key(s[0] as u32) && has_path(
        node.child_nodes@[s[0] as u32],
        s.skip(1),
    ))
}

/// Whether `s` spells a path that ends on a node marked final.
pub open spec fn is_word(node: TriesNode, s: Seq<char>) -> bool
    decreases s.len(),
{
    if s.len() == 0 {
        node.is_final
    } else {
        node.child_nodes@.contains_key(s[0] as u32) && is_word(
            node.child_nodes@[s[0] as u32],
            s.skip(1),
        )
    }
}

/// The node's character, with the nul character standing in for the root.
pub open spec fn value_or_nul(node: TriesNode) -> char {
    match node.value {
        Some(c) => c,
        None => '\u{0}',
    }
}

/// The characters a walk along `s` reads off: each visited node's character,
/// taken before descending, so the last character of `s` is never read.
pub open spec fn path_values(node: TriesNode, s: Seq<char>) -> Seq<char>
    decreases s.len(),
{
    if s.len() == 0 {
        Seq::empty()
    } else {
        seq![value_or_nul(node)] + path_values(node.child_nodes@[s[0] as u32], s.skip(1))
    }
}

impl TriesNode {
    /// A node for character `value`, with no children yet.
    pub fn new(value: char, is_final: bool) -> (n: TriesNode)
        ensures
            n.value == Some(value),
            n.is_final == is_final,
            n.child_nodes@ == Map::<u32, TriesNode>::empty(),
            forall|t: Seq<char>| #[trigger] is_word(n, t) == (t.len() == 0 && is_final),
            forall|t: Seq<char>| #[trigger] has_path(n, t) == (t.len() == 0),
    {
        let n = TriesNode { value: Some(value), is_final, child_nodes: HashMap::new() };
        proof {
            lemma_leaf_node(n);
        }
        n
    }

    /// The root node: no character, not final, no children.
    pub fn new_root() -> (n: TriesNode)
        ensures
            n.value is None,
            !n.is_final,
            n.child_nodes@ == Map::<u32, TriesNode>::empty(),
            forall|t: Seq<char>| #[trigger] is_word(n, t) == false,
            forall|t: Seq<char>| #[trigger] has_path(n, t) == (t.len() == 0),
    {
        let n = TriesNode { value: None, is_final: false, child_nodes: HashMap::new() };
        proof {
            lemma_leaf_node(n);
        }
        n
    }

    /// Whether this node carries the character `c`.
    pub fn check_value(self, c: char) -> (r: bool)
        ensures
            r == (self.value == Some(c)),
    {
        match self.value {
            Some(v) => v == c,
            None => false,
        }
    }

    /// Hangs a fresh, non-final child for character `value` below this node,
    /// replacing any child that character had.
    pub fn insert_value(&mut self, value: char, is_final: bool)
        ensures
            final(self).value == old(self).value,
            final(self).is_final == old(self).is_final,
            final(self).child_nodes@.contains_key(value as u32),
            final(self).child_nodes@[value as u32].value == Some(value),
            final(self).child_nodes@[value as u32].is_final == is_final,
            final(self).child_nodes@[value as u32].child_nodes@ == Map::<u32, TriesNode>::empty(),
            forall|k: u32|
                k != value as u32 ==> final(self).child_nodes@.contains_key(k) == old(
                self).child_nodes@.contains_key(k),
            forall|k: u32|
                k != value as u32 && old(self).child_nodes@.contains_key(k) ==> final(
                self).child_nodes@[k] == old(self).child_nodes@[k],
    {
        self.child_nodes.insert(value as u32, TriesNode::new(value, is_final));
    }
}

/// A node without children spells no word and only the empty path.
proof fn lemma_leaf_node(n: TriesNode)
    requires
        n.child_nodes@ == Map::<u32, TriesNode>::empty(),
    ensures
        forall|t: Seq<char>| #[trigger] is_word(n, t) == (t.len() == 0 && n.is_final),
        forall|t: Seq<char>| #[trigger] has_path(n, t) == (t.len() == 0),
{
    assert forall|t: Seq<char>| #[trigger] is_word(n, t) == (t.len() == 0 && n.is_final) by {
        if t.len() > 0 {
            assert(!n.child_nodes@.contains_key(t[0] as u32));
        }
    }
    assert forall|t: Seq<char>| #[trigger] has_path(n, t) == (t.len() == 0) by {
        if t.len() > 0 {
            assert(!n.child_nodes@.contains_key(t[0] as u32));
        }
    }
}

/// The trie: a root node holding everything below it.
#[derive(Debug)]
pub struct TrieStructure {
    pub root_node: TriesNode,
}

impl TrieStructure {
    /// An empty trie.
    pub fn new() -> (t: TrieStructure)
        ensures
            forall|s: Seq<char>| #[trigger] is_word(t.root_node, s) == false,
            forall|s: Seq<char>| #[trigger] has_path(t.root_node, s) == (s.len() == 0),
    {
        TrieStructure { root_node: TriesNode::new_root() }
    }

    /// Marks `file_name` as a stored word, creating its path as needed.
    /// Exactly the words and paths that `file_name` spells are added.
    pub fn insert(&mut self, file_name: String)
        ensures
            forall|t: Seq<char>| #[trigger]
                is_word(final(self).root_node, t) == (is_word(old(self).root_node, t) || t
                    == file_name@),
            forall|t: Seq<char>| #[trigger]
                has_path(final(self).root_node, t) == (has_path(old(self).root_node, t)
                    || t.is_prefix_of(file_name@)),
    {
        let cs = crate::text::chars_of(file_name.as_str());
        proof {
            assert(cs@.skip(0) =~= file_name@);
            assert forall|t: Seq<char>| t.is_prefix_of(cs@.skip(0)) implies t.is_prefix_of(
                file_name@,
            ) by {}
        }
        tries_insert_rec(&mut self.root_node, &cs, 0);
    }

    /// Whether every character of `file_name` has a node along a path from
    /// the root, together with the characters read off on the way there:
    /// each visited node's own character (the nul character at the root),
    /// read before descending.
    pub fn find(&mut self, file_name: String) -> (r: (bool, String))
        ensures
            *final(self) == *old(self),
            r.0 == has_path(old(self).root_node, file_name@),
            r.0 ==> r.1@ == path_values(old(self).root_node, file_name@),
            !r.0 ==> r.1@ == Seq::<char>::empty(),
    {
        let cs = crate::text::chars_of(file_name.as_str());
        let mut container = String::new();
        let mut current: &TriesNode = &self.root_node;
        let mut i: usize = 0;
        proof {
            assert(cs@.skip(0) =~= file_name@);
        }
        while i < cs.len()
            invariant
                i <= cs@.len(),
                cs@ == file_name@,
                has_path(old(self).root_node, file_name@) == has_path(
                    *current,
                    file_name@.skip(i as int),
                ),
                has_path(*current, file_name@.skip(i as int)) ==> path_values(
                    old(self).root_node,
                    file_name@,
                ) == container@ + path_values(*current, file_name@.skip(i as int)),
            decreases cs@.len() - i,
        {
            proof {
                assert(file_name@.skip(i as int)[0] == file_name@[i as int]);
                assert(file_name@.skip(i as int).skip(1) =~= file_name@.skip(i + 1 as int));
            }
            let c32 = cs[i] as u32;
            if !current.child_nodes.contains_key(&c32) {
                return (false, String::new());
            }
            let c = match &current.value {
                Some(v) => *v,
                None => '\u{0}',
            };
            crate::text::push_char(&mut container, c);
            let next = match current.child_nodes.get(&c32) {
                Some(n) => n,
                None => {
                    proof {
                        assert(false);
                    }
                    current
                },
            };
            proof {
                let rest = file_name@.skip(i as int);
                if has_path(*next, rest.skip(1)) {
                    assert(path_values(*current, rest) == seq![value_or_nul(*current)]
                        + path_values(*next, rest.skip(1)));
                }
            }
            current = next;
            i = i + 1;
        }
        proof {
            assert(file_name@.skip(cs@.len() as int).len() == 0);
            assert(container@ + Seq::<char>::empty() =~= container@);
        }
        (true, container)
    }
}

/// Marks the suffix `cs[i..]` as a word below `node`, growing the path.
fn tries_insert_rec(node: &mut TriesNode, cs: &Vec<char>, i: usize)
    requires
        i <= cs@.len(),
    ensures
        final(node).value == old(node).value,
        forall|t: Seq<char>| #[trigger]
            is_word(*final(node), t) == (is_word(*old(node), t) || t == cs@.skip(i as int)),
        forall|t: Seq<char>| #[trigger]
            has_path(*final(node), t) == (has_path(*old(node), t) || t.is_prefix_of(
                cs@.skip(i as int),
            )),
    decreases cs@.len() - i,
{
    if i == cs.len() {
        node.is_final = true;
        proof {
            assert(cs@.skip(i as int).len() == 0);
            assert forall|t: Seq<char>| #[trigger]
                is_word(*node, t) == (is_word(*old(node), t) || t == cs@.skip(i as int)) by {
                if t.len() == 0 {
                    assert(t =~= cs@.skip(i as int));
                } else {
                    lemma_same_children_same_words(*old(node), *node, t);
                }
            }
            assert forall|t: Seq<char>| #[trigger]
                has_path(*node, t) == (has_path(*old(node), t) || t.is_prefix_of(
                    cs@.skip(i as int),
                )) by {
                lemma_same_children_same_paths(*old(node), *node, t);
                if t.is_prefix_of(cs@.skip(i as int)) {
                    assert(t.len() == 0);
                    assert(has_path(*old(node), t));
                }
            }
        }
    } else {
        let c = cs[i];
        let c32 = c as u32;
        let ghost node_pre = *node;
        let ghost suffix = cs@.skip(i as int);
        proof {
            assert(suffix[0] == c);
            assert(suffix.skip(1) =~= cs@.skip(i + 1 as int));
        }
        let mut child = match node.child_nodes.remove(&c32) {
            Some(ch) => ch,
            None => TriesNode::new(c, false),
        };
        let ghost child_pre = child;
        let ghost had_child = node_pre.child_nodes@.contains_key(c32);
        tries_insert_rec(&mut child, cs, i + 1);
        node.child_nodes.insert(c32, child);
        proof {
            assert(node.child_nodes@ =~= node_pre.child_nodes@.insert(c32, child));
            assert forall|t: Seq<char>| #[trigger]
                is_word(*node, t) == (is_word(node_pre, t) || t == suffix) by {
                if t.len() == 0 {
                    assert(t != suffix);
                } else if t[0] as u32 == c32 {
                    crate::text::lemma_char_eq_u32(t[0], c);
                    assert(is_word(*node, t) == is_word(child, t.skip(1)));
                    if had_child {
                        assert(is_word(node_pre, t) == is_word(child_pre, t.skip(1)));
                    } else {
                        assert(!is_word(node_pre, t));
                        assert(is_word(child_pre, t.skip(1)) == (t.skip(1).len() == 0 && false));
                    }
                    assert((t.skip(1) == cs@.skip(i + 1 as int)) == (t == suffix)) by {
                        if t.skip(1) == cs@.skip(i + 1 as int) {
                            assert forall|k: int| 0 <= k < t.len() implies t[k] == suffix[k] by {
                                if k > 0 {
                                    assert(t.skip(1)[k - 1] == t[k]);
                                    assert(suffix.skip(1)[k - 1] == suffix[k]);
                                }
                            }
                            assert(t =~= suffix);
                        }
                    }
                } else {
                    assert(node.child_nodes@.contains_key(t[0] as u32) == node_pre.child_nodes@.contains_key(
                        t[0] as u32,
                    ));
                    if node_pre.child_nodes@.contains_key(t[0] as u32) {
                        assert(node.child_nodes@[t[0] as u32] == node_pre.child_nodes@[t[0] as u32]);
                    }
                    assert(t[0] != suffix[0]) by {
                        if t[0] == suffix[0] {
                            assert(t[0] as u32 == c32);
                        }
                    }
                    assert(t != suffix);
                }
            }
            assert forall|t: Seq<char>| #[trigger]
                has_path(*node, t) == (has_path(node_pre, t) || t.is_prefix_of(suffix)) by {
                if t.len() == 0 {
                    assert(t.is_prefix_of(suffix));
                    assert(has_path(node_pre, t));
                } else if t[0] as u32 == c32 {
                    crate::text::lemma_char_eq_u32(t[0], c);
                    assert(has_path(*node, t) == has_path(child, t.skip(1)));
                    if had_child {
                        assert(has_path(node_pre, t) == has_path(child_pre, t.skip(1)));
                    } else {
                        assert(!has_path(node_pre, t));
                        assert(has_path(child_pre, t.skip(1)) == (t.skip(1).len() == 0));
                        if t.skip(1).len() == 0 {
                            assert(t.is_prefix_of(suffix)) by {
                                assert(t.len() == 1);
                                assert(t =~= suffix.subrange(0, 1));
                            }
                        }
                    }
                    assert((t.skip(1)).is_prefix_of(cs@.skip(i + 1 as int)) == t.is_prefix_of(
                        suffix,
                    )) by {
                        if t.skip(1).is_prefix_of(cs@.skip(i + 1 as int)) {
                            assert forall|k: int| 0 <= k < t.len() implies t[k] == suffix[k] by {
                                if k > 0 {
                                    assert(t.skip(1)[k - 1] == t[k]);
                                    assert(suffix.skip(1)[k - 1] == suffix[k]);
                                    assert(t.skip(1)[k - 1] == cs@.skip(i + 1 as int).subrange(
                                        0,
                                        t.skip(1).len() as int,
                                    )[k - 1]);
                                }
                            }
                            assert(t =~= suffix.subrange(0, t.len() as int));
                        }
                        if t.is_prefix_of(suffix) {
                            assert(t =~= suffix.subrange(0, t.len() as int));
                            assert(t.skip(1) =~= cs@.skip(i + 1 as int).subrange(
                                0,
                                t.len() - 1,
                            )) by {
                                assert forall|k: int| 0 <= k < t.len() - 1 implies t.skip(1)[k]
                                    == cs@.skip(i + 1 as int)[k] by {
                                    assert(t.skip(1)[k] == t[k + 1]);
                                    assert(t[k + 1] == suffix[k + 1]);
                                    assert(suffix.skip(1)[k] == suffix[k + 1]);
                                }
                            }
                        }
                    }
                } else {
                    assert(node.child_nodes@.contains_key(t[0] as u32) == node_pre.child_nodes@.contains_key(
                        t[0] as u32,
                    ));
                    if node_pre.child_nodes@.contains_key(t[0] as u32) {
                        assert(node.child_nodes@[t[0] as u32] == node_pre.child_nodes@[t[0] as u32]);
                    }
                    assert(!t.is_prefix_of(suffix)) by {
                        if t.is_prefix_of(suffix) {
                            assert(t[0] == suffix.subrange(0, t.len() as int)[0]);
                            assert(t[0] as u32 == c32);
                        }
                    }
                }
            }
        }
    }
}

/// Nodes with the same children and the same mark spell the same words.
proof fn lemma_same_children_same_words(a: TriesNode, b: TriesNode, t: Seq<char>)
    requires
        a.child_nodes@ == b.child_nodes@,
        t.len() > 0,
    ensures
        is_word(a, t) == is_word(b, t),
{
}

/// Nodes with the same children spell the same paths.
proof fn lemma_same_children_same_paths(a: TriesNode, b: TriesNode, t: Seq<char>)
    requires
        a.child_nodes@ == b.child_nodes@,
    ensures
        has_path(a, t) == has_path(b, t),
{
}

} // verus!
