//! A prefix tree keyed by scalars, with longest-prefix search.

use crate::substring::{to_chars, Substring};
use std::collections::HashMap;
use vstd::prelude::*;
use vstd::std_specs::hash::group_hash_axioms;

verus! {

broadcast use group_hash_axioms;

/// Length of the longest prefix of `text`, among those of at most `n`
/// scalars, that belongs to `dom`; 0 where there is none.
pub open spec fn best_len(dom: Set<Seq<char>>, text: Seq<char>, n: nat) -> nat
    decreases n,
{
    if n == 0 {
        0
    } else if n <= text.len() && dom.contains(text.take(n as int)) {
        n
    } else {
        best_len(dom, text, (n - 1) as nat)
    }
}

/// Length of the longest non-empty prefix of `text` that belongs to `dom`;
/// 0 where there is none.
pub open spec fn longest_prefix_len(dom: Set<Seq<char>>, text: Seq<char>) -> nat {
    best_len(dom, text, text.len())
}

/// The longest prefix is a member of `dom`, and no longer prefix is.
pub proof fn lemma_best_len(dom: Set<Seq<char>>, text: Seq<char>, n: nat)
    requires
        n <= text.len(),
    ensures
        best_len(dom, text, n) <= n,
        best_len(dom, text, n) > 0 ==> dom.contains(text.take(best_len(dom, text, n) as int)),
        forall|m: int| best_len(dom, text, n) < m <= n ==> !dom.contains(#[trigger] text.take(m)),
    decreases n,
{
    if n > 0 && !dom.contains(text.take(n as int)) {
        lemma_best_len(dom, text, (n - 1) as nat);
    }
}

/// Prefixes longer than `d` that are all absent from `dom` do not change
/// the longest match.
pub proof fn lemma_best_len_stable(dom: Set<Seq<char>>, text: Seq<char>, d: nat, n: nat)
    requires
        d <= n <= text.len(),
        forall|m: int| d < m <= n ==> !dom.contains(#[trigger] text.take(m)),
    ensures
        best_len(dom, text, n) == best_len(dom, text, d),
    decreases n - d,
{
    if n > d {
        assert(!dom.contains(text.take(n as int)));
        lemma_best_len_stable(dom, text, d, (n - 1) as nat);
    }
}

/// A key with the value stored under it.
struct NodeValue<V> {
    key: Substring,
    value: V,
}

/// A node: what is stored at its path, and its edges, from the value of
/// the next scalar to the node it leads to. The ghost fields name the
/// path and the parent.
struct TrieNode<V> {
    value: Option<NodeValue<V>>,
    children: HashMap<u32, usize>,
    path: Ghost<Seq<char>>,
    parent: Ghost<int>,
}

/// A prefix tree from texts to values of type `V`. Its view is the map
/// from each stored key to its value.
pub struct Trie<V> {
    nodes: Vec<TrieNode<V>>,
    length: usize,
    index: Ghost<Map<Seq<char>, int>>,
}

impl<V> View for Trie<V> {
    type V = Map<Seq<char>, V>;

    closed spec fn view(&self) -> Map<Seq<char>, V> {
        Map::new(
            |k: Seq<char>|
                self.index@.contains_key(k) && self.nodes@[self.index@[k]].value is Some,
            |k: Seq<char>| self.nodes@[self.index@[k]].value->0.value,
        )
    }
}

impl<V> Trie<V> {
    /// Node `i` is indexed by its path, holds its key under that path, and
    /// is listed by its parent.
    spec fn node_ok(&self, i: int) -> bool {
        let nd = self.nodes@[i];
        &&& self.index@.contains_key(nd.path@)
        &&& self.index@[nd.path@] == i
        &&& (nd.value is Some ==> nd.value->0.key@ == nd.path@)
        &&& (i > 0 ==> nd.path@.len() > 0 && 0 <= nd.parent@ < self.nodes@.len()
            && self.nodes@[nd.parent@].children@.contains_key(nd.path@.last() as u32)
            && self.nodes@[nd.parent@].children@[nd.path@.last() as u32] == i)
    }

    /// The edge of node `i` under the scalar value `e` leads to the node
    /// whose path is longer by that scalar.
    spec fn edge_ok(&self, i: int, e: u32) -> bool {
        let nd = self.nodes@[i];
        let t = nd.children@[e] as int;
        &&& 0 <= t < self.nodes@.len()
        &&& self.nodes@[t].path@.len() > 0
        &&& self.nodes@[t].path@.drop_last() == nd.path@
        &&& self.nodes@[t].path@.last() as u32 == e
    }

    /// The structural invariant of the tree: every node stands for one
    /// path from the root, and `len` counts the keys.
    pub closed spec fn wf(&self) -> bool {
        &&& self.nodes@.len() >= 1
        &&& self.nodes@[0].path@.len() == 0
        &&& self.nodes@[0].value is None
        &&& forall|i: int| 0 <= i < self.nodes@.len() ==> #[trigger] self.node_ok(i)
        &&& forall|i: int, e: u32|
            0 <= i < self.nodes@.len() && self.nodes@[i].children@.contains_key(e)
                ==> #[trigger] self.edge_ok(i, e)
        &&& forall|p: Seq<char>| #[trigger]
            self.index@.contains_key(p) ==> 0 <= self.index@[p] < self.nodes@.len()
                && self.nodes@[self.index@[p]].path@ == p
        &&& self.index@.dom().finite()
        &&& self.index@.dom().len() == self.nodes@.len()
        &&& self@.dom().finite()
        &&& self.length == self@.dom().len()
    }

    /// There are fewer keys than nodes, since the root holds none.
    proof fn lemma_fewer_keys_than_nodes(&self)
        requires
            self.wf(),
        ensures
            self@.dom().len() < self.nodes@.len(),
    {
        let root_path = self.nodes@[0].path@;
        assert(self.node_ok(0));
        assert(self@.dom().subset_of(self.index@.dom().remove(root_path)));
        vstd::set_lib::lemma_len_subset(self@.dom(), self.index@.dom().remove(root_path));
    }

    /// The key object stored for the text `k`.
    pub closed spec fn key_at(&self, k: Seq<char>) -> Substring {
        self.nodes@[self.index@[k]].value->0.key
    }

    /// The stored key for a text has that text as its view.
    pub proof fn lemma_key_at(&self, k: Seq<char>)
        requires
            self.wf(),
            self@.contains_key(k),
        ensures
            self.key_at(k)@ == k,
    {
        assert(self.node_ok(self.index@[k]));
    }

    /// A well-formed tree holds finitely many keys.
    pub proof fn lemma_finite(&self)
        requires
            self.wf(),
        ensures
            self@.dom().finite(),
    {
    }

    /// The empty tree.
    pub fn new() -> (out: Self)
        ensures
            out.wf(),
            out@ == Map::<Seq<char>, V>::empty(),
    {
        let root = TrieNode {
            value: None,
            children: HashMap::new(),
            path: Ghost(Seq::empty()),
            parent: Ghost(0),
        };
        let mut nodes: Vec<TrieNode<V>> = Vec::new();
        nodes.push(root);
        let out = Trie { nodes, length: 0, index: Ghost(Map::empty().insert(Seq::empty(), 0)) };
        proof {
            assert(out@ =~= Map::<Seq<char>, V>::empty());
            assert(out.node_ok(0));
        }
        out
    }

    /// Number of keys.
    pub fn len(&self) -> (out: usize)
        requires
            self.wf(),
        ensures
            out == self@.dom().len(),
            self@.dom().finite(),
    {
        self.length
    }

    /// Every prefix of the path of a node is the path of a node.
    proof fn lemma_prefix_closed(&self, p: Seq<char>, m: int)
        requires
            self.wf(),
            self.index@.contains_key(p),
            0 <= m <= p.len(),
        ensures
            self.index@.contains_key(p.take(m)),
        decreases p.len() - m,
    {
        if m == p.len() {
            assert(p.take(m) =~= p);
        } else {
            let j = self.index@[p];
            assert(self.node_ok(j));
            let pj = self.nodes@[j].parent@;
            assert(self.edge_ok(pj, p.last() as u32));
            let pp = self.nodes@[pj].path@;
            assert(pp =~= p.drop_last());
            assert(self.node_ok(pj));
            self.lemma_prefix_closed(pp, m);
            assert(pp.take(m) =~= p.take(m));
        }
    }

    /// The child of `node` under the label `c`, if there is one.
    fn find_child(&self, node: usize, c: char) -> (out: Option<usize>)
        requires
            self.wf(),
            node < self.nodes@.len(),
        ensures
            match out {
                Some(t) => t < self.nodes@.len() && self.nodes@[t as int].path@
                    == self.nodes@[node as int].path@.push(c),
                None => !self.index@.contains_key(self.nodes@[node as int].path@.push(c)),
            },
    {
        let key: u32 = c as u32;
        match self.nodes[node].children.get(&key) {
            Some(target) => {
                proof {
                    assert(self.edge_ok(node as int, key));
                    let found = self.nodes@[*target as int].path@;
                    vstd::utf8::char_u32_cast(found.last(), key);
                    vstd::utf8::char_u32_cast(c, key);
                    assert(found =~= found.drop_last().push(found.last()));
                }
                Some(*target)
            },
            None => {
                proof {
                    let path = self.nodes@[node as int].path@;
                    let q = path.push(c);
                    if self.index@.contains_key(q) {
                        let j = self.index@[q];
                        assert(self.node_ok(j));
                        let pj = self.nodes@[j].parent@;
                        assert(q.last() == c);
                        assert(self.edge_ok(pj, key));
                        let pp = self.nodes@[pj].path@;
                        assert(pp =~= q.drop_last());
                        assert(path =~= q.drop_last());
                        assert(self.node_ok(pj));
                        assert(self.node_ok(node as int));
                        assert(pj == node);
                        assert(false);
                    }
                }
                None
            },
        }
    }

    /// The node whose path is `chars`, if there is one.
    fn locate(&self, chars: &Vec<char>) -> (out: Option<usize>)
        requires
            self.wf(),
        ensures
            match out {
                Some(node) => node < self.nodes@.len() && self.nodes@[node as int].path@
                    == chars@,
                None => !self.index@.contains_key(chars@),
            },
    {
        let mut cur: usize = 0;
        let mut d: usize = 0;
        proof {
            assert(self.nodes@[0].path@ =~= chars@.take(0));
        }
        while d < chars.len()
            invariant
                self.wf(),
                cur < self.nodes@.len(),
                d <= chars@.len(),
                self.nodes@[cur as int].path@ == chars@.take(d as int),
            decreases chars@.len() - d,
        {
            match self.find_child(cur, chars[d]) {
                Some(t) => {
                    proof {
                        assert(chars@.take(d as int).push(chars@[d as int]) =~= chars@.take(
                            d as int + 1,
                        ));
                    }
                    cur = t;
                },
                None => {
                    proof {
                        assert(chars@.take(d as int).push(chars@[d as int]) =~= chars@.take(
                            d as int + 1,
                        ));
                        if self.index@.contains_key(chars@) {
                            self.lemma_prefix_closed(chars@, d as int + 1);
                        }
                    }
                    return None;
                },
            }
            d = d + 1;
        }
        proof {
            assert(chars@.take(d as int) =~= chars@);
        }
        Some(cur)
    }

    /// The value stored under `key`, if there is one.
    pub fn get(&self, key: &Substring) -> (out: Option<&V>)
        requires
            self.wf(),
        ensures
            out is Some <==> self@.contains_key(key@),
            out is Some ==> *out->0 == self@[key@],
    {
        match self.locate(key.chars()) {
            Some(node) => {
                proof {
                    assert(self.node_ok(node as int));
                }
                match &self.nodes[node].value {
                    Some(nv) => Some(&nv.value),
                    None => None,
                }
            },
            None => None,
        }
    }

    /// `post` differs from `self` at most in the value held by `node`.
    spec fn same_but_value(&self, post: &Trie<V>, node: int) -> bool {
        &&& post.length == self.length
        &&& post.index@ == self.index@
        &&& post.nodes@.len() == self.nodes@.len()
        &&& forall|i: int|
            0 <= i < self.nodes@.len() && i != node ==> #[trigger] post.nodes@[i]
                == self.nodes@[i]
        &&& post.nodes@[node].children == self.nodes@[node].children
        &&& post.nodes@[node].path == self.nodes@[node].path
        &&& post.nodes@[node].parent == self.nodes@[node].parent
        &&& post.nodes@[node].value is Some
        &&& post.nodes@[node].value->0.key == self.nodes@[node].value->0.key
    }

    /// Changing the value held by a node keeps the tree well formed and
    /// changes the view at the path of that node only.
    proof fn lemma_same_but_value(&self, post: &Trie<V>, node: int)
        requires
            self.wf(),
            0 <= node < self.nodes@.len(),
            self.nodes@[node].value is Some,
            self.same_but_value(post, node),
        ensures
            post.wf(),
            post@ == self@.insert(self.nodes@[node].path@, post.nodes@[node].value->0.value),
            forall|k: Seq<char>| self@.contains_key(k) ==> post.key_at(k) == self.key_at(k),
    {
        assert(self.node_ok(node));
        assert(post@ =~= self@.insert(
            self.nodes@[node].path@,
            post.nodes@[node].value->0.value,
        ));
        assert forall|i: int| 0 <= i < post.nodes@.len() implies #[trigger] post.node_ok(i) by {
            assert(self.node_ok(i));
        }
        assert forall|i: int, e: u32|
            0 <= i < post.nodes@.len() && post.nodes@[i].children@.contains_key(e)
                implies #[trigger] post.edge_ok(i, e) by {
            assert(self.edge_ok(i, e));
        }
        assert forall|k: Seq<char>| self@.contains_key(k) implies post.key_at(k) == self.key_at(
            k,
        ) by {
            assert(self.index@.contains_key(k));
        }
    }

    /// Mutable access to the value stored under `key`, if there is one.
    pub fn get_mut(&mut self, key: &Substring) -> (out: Option<&mut V>)
        requires
            old(self).wf(),
        ensures
            out is Some <==> old(self)@.contains_key(key@),
            out is Some ==> *out->0 == old(self)@[key@],
            out is Some ==> final(self)@ == old(self)@.insert(key@, *final(out->0)),
            out is Some ==> final(self).wf(),
            out is Some ==> forall|k: Seq<char>|
                old(self)@.contains_key(k) ==> final(self).key_at(k) == old(self).key_at(k),
            out is None ==> *final(self) == *old(self),
    {
        match self.locate(key.chars()) {
            Some(node) => {
                proof {
                    assert(self.node_ok(node as int));
                }
                if self.nodes[node].value.is_none() {
                    return None;
                }
                proof {
                    let pre = *self;
                    assert forall|post: Trie<V>|
                        pre.same_but_value(&post, node as int) implies #[trigger] post.wf() by {
                        pre.lemma_same_but_value(&post, node as int);
                    }
                    assert forall|post: Trie<V>, k: Seq<char>|
                        pre.same_but_value(&post, node as int) && pre@.contains_key(
                            k,
                        ) implies #[trigger] post.key_at(k) == pre.key_at(k) by {
                        pre.lemma_same_but_value(&post, node as int);
                    }
                }
                match &mut self.nodes[node].value {
                    Some(nv) => Some(&mut nv.value),
                    None => None,
                }
            },
            None => None,
        }
    }

    /// Whether a value is stored under `key`.
    pub fn contains_key(&self, key: &Substring) -> (out: bool)
        requires
            self.wf(),
        ensures
            out == self@.contains_key(key@),
    {
        self.get(key).is_some()
    }

    /// The longest stored key that `text` has as a prefix from position
    /// `start` on, with its length in scalars and its value.
    pub fn find_match_at(&self, text: &Vec<char>, start: usize) -> (out: Option<
        (usize, &Substring, &V),
    >)
        requires
            self.wf(),
            start <= text@.len(),
        ensures
            ({
                let t = text@.skip(start as int);
                let k = longest_prefix_len(self@.dom(), t);
                match out {
                    None => k == 0,
                    Some((len, key, value)) => {
                        &&& len == k
                        &&& 0 < k <= t.len()
                        &&& key@ == t.take(k as int)
                        &&& self@.contains_key(key@)
                        &&& *value == self@[key@]
                        &&& *key == self.key_at(key@)
                    },
                }
            }),
    {
        let ghost t = text@.skip(start as int);
        let ghost dom = self@.dom();
        let n: usize = text.len() - start;
        let mut cur: usize = 0;
        let mut d: usize = 0;
        let mut best: usize = 0;
        let mut best_d: usize = 0;
        proof {
            assert(self.nodes@[0].path@ =~= t.take(0));
        }
        while d < n
            invariant
                self.wf(),
                t == text@.skip(start as int),
                dom == self@.dom(),
                start + n == text@.len(),
                cur < self.nodes@.len(),
                d <= n,
                self.nodes@[cur as int].path@ == t.take(d as int),
                best_d <= d,
                best_d == best_len(dom, t, d as nat),
                best_d > 0 ==> best < self.nodes@.len() && self.nodes@[best as int].path@
                    == t.take(best_d as int) && self.nodes@[best as int].value is Some,
                text@.len() <= usize::MAX,
            ensures
                best_d == best_len(dom, t, n as nat),
            decreases n - d,
        {
            let c = text[start + d];
            proof {
                assert(t[d as int] == c);
                assert(t.take(d as int).push(c) =~= t.take(d as int + 1));
            }
            match self.find_child(cur, c) {
                Some(next) => {
                    proof {
                        assert(self.node_ok(next as int));
                    }
                    cur = next;
                    d = d + 1;
                    if self.nodes[cur].value.is_some() {
                        best = cur;
                        best_d = d;
                    }
                },
                None => {
                    proof {
                        assert forall|m: int| d < m <= n implies !dom.contains(
                            #[trigger] t.take(m),
                        ) by {
                            if self.index@.contains_key(t.take(m)) {
                                self.lemma_prefix_closed(t.take(m), d as int + 1);
                                assert(t.take(m).take(d as int + 1) =~= t.take(d as int + 1));
                            }
                        }
                        lemma_best_len_stable(dom, t, d as nat, n as nat);
                    }
                    break ;
                },
            }
        }
        proof {
            assert(best_d == longest_prefix_len(dom, t));
        }
        if best_d == 0 {
            None
        } else {
            proof {
                assert(self.node_ok(best as int));
            }
            match &self.nodes[best].value {
                Some(nv) => Some((best_d, &nv.key, &nv.value)),
                None => None,
            }
        }
    }

    /// The longest stored key that is a prefix of `text`, with its value.
    pub fn find_match(&self, text: &str) -> (out: Option<(&Substring, &V)>)
        requires
            self.wf(),
        ensures
            ({
                let k = longest_prefix_len(self@.dom(), text@);
                match out {
                    None => k == 0,
                    Some((key, value)) => {
                        &&& 0 < k <= text@.len()
                        &&& key@ == text@.take(k as int)
                        &&& self@.contains_key(key@)
                        &&& *value == self@[key@]
                    },
                }
            }),
    {
        let chars = to_chars(text);
        proof {
            assert(chars@.skip(0) =~= chars@);
        }
        match self.find_match_at(&chars, 0) {
            Some((_, key, value)) => Some((key, value)),
            None => None,
        }
    }

    /// Stores `value` under `key` and returns the value that it replaces,
    /// if there was one.
    pub fn insert(&mut self, key: Substring, value: V) -> (out: Option<V>)
        requires
            old(self).wf(),
        ensures
            final(self).wf(),
            final(self)@ == old(self)@.insert(key@, value),
            final(self).key_at(key@) == key,
            forall|k: Seq<char>|
                k != key@ && old(self)@.contains_key(k) ==> final(self).key_at(k) == old(
                    self,
                ).key_at(k),
            out == (if old(self)@.contains_key(key@) {
                Some(old(self)@[key@])
            } else {
                None
            }),
    {
        let n: usize = key.char_count();
        let mut cur: usize = 0;
        let mut d: usize = 0;
        proof {
            assert(self.nodes@[0].path@ =~= key@.take(0));
        }
        while d < n
            invariant
                self.wf(),
                n == key@.len(),
                cur < self.nodes@.len(),
                d <= n,
                self.nodes@[cur as int].path@ == key@.take(d as int),
                self@ == old(self)@,
                forall|k: Seq<char>|
                    old(self)@.contains_key(k) ==> self.key_at(k) == old(self).key_at(k),
            decreases n - d,
        {
            let c = key.chars()[d];
            proof {
                assert(key@.take(d as int).push(c) =~= key@.take(d as int + 1));
            }
            match self.find_child(cur, c) {
                Some(t) => {
                    cur = t;
                },
                None => {
                    let ghost pre = *self;
                    let ghost new_path = self.nodes@[cur as int].path@.push(c);
                    let label: u32 = c as u32;
                    let t: usize = self.nodes.len();
                    let fresh = TrieNode {
                        value: None,
                        children: HashMap::new(),
                        path: Ghost(new_path),
                        parent: Ghost(cur as int),
                    };
                    proof {
                        assert(pre.node_ok(cur as int));
                        assert(new_path.drop_last() =~= self.nodes@[cur as int].path@);
                        if pre.nodes@[cur as int].children@.contains_key(label) {
                            assert(pre.edge_ok(cur as int, label));
                            let old_target = pre.nodes@[cur as int].children@[label] as int;
                            let found = pre.nodes@[old_target].path@;
                            vstd::utf8::char_u32_cast(found.last(), label);
                            vstd::utf8::char_u32_cast(c, label);
                            assert(found =~= found.drop_last().push(found.last()));
                            assert(pre.node_ok(old_target));
                        }
                    }
                    self.nodes.push(fresh);
                    self.nodes[cur].children.insert(label, t);
                    self.index = Ghost(self.index@.insert(new_path, t as int));
                    proof {
                        assert forall|i: int| 0 <= i < self.nodes@.len() implies #[trigger]
                            self.node_ok(i) by {
                            if i < t {
                                assert(pre.node_ok(i));
                            }
                        }
                        assert forall|i: int, e: u32|
                            0 <= i < self.nodes@.len() && self.nodes@[i].children@.contains_key(
                                e,
                            ) implies #[trigger] self.edge_ok(i, e) by {
                            if i < t && !(i == cur && e == label) {
                                assert(pre.edge_ok(i, e));
                            }
                        }
                        assert(self@ =~= pre@);
                        assert forall|k: Seq<char>| pre@.contains_key(k) implies self.key_at(k)
                            == pre.key_at(k) by {
                            assert(pre.index@.contains_key(k));
                        }
                    }
                    cur = t;
                },
            }
            d = d + 1;
        }
        proof {
            assert(key@.take(n as int) =~= key@);
            assert(self.node_ok(cur as int));
        }
        let ghost pre = *self;
        let total: usize = self.nodes.len();
        proof {
            self.lemma_fewer_keys_than_nodes();
        }
        let prev = self.nodes[cur].value.take();
        self.nodes[cur].value = Some(NodeValue { key, value });
        let out = match prev {
            Some(nv) => Some(nv.value),
            None => {
                self.length = self.length + 1;
                None
            },
        };
        proof {
            assert(self@ =~= pre@.insert(key@, value));
            assert forall|i: int| 0 <= i < self.nodes@.len() implies #[trigger] self.node_ok(
                i,
            ) by {
                assert(pre.node_ok(i));
            }
            assert forall|i: int, e: u32|
                0 <= i < self.nodes@.len() && self.nodes@[i].children@.contains_key(e)
                    implies #[trigger] self.edge_ok(i, e) by {
                assert(pre.edge_ok(i, e));
            }
            assert forall|k: Seq<char>| k != key@ && pre@.contains_key(k) implies self.key_at(k)
                == pre.key_at(k) by {
                assert(pre.index@.contains_key(k));
            }
        }
        out
    }

    /// Keeps the entries for which `f` answers true and drops the others.
    pub fn retain<F: Fn(&Substring, &V) -> bool>(&mut self, f: F)
        requires
            old(self).wf(),
            forall|k: &Substring, v: &V| f.requires((k, v)),
        ensures
            final(self).wf(),
            forall|k: Seq<char>| #[trigger]
                final(self)@.contains_key(k) ==> {
                    &&& old(self)@.contains_key(k)
                    &&& final(self)@[k] == old(self)@[k]
                    &&& final(self).key_at(k) == old(self).key_at(k)
                    &&& f.ensures((&old(self).key_at(k), &old(self)@[k]), true)
                },
            forall|k: Seq<char>| #[trigger]
                old(self)@.contains_key(k) && !final(self)@.contains_key(k) ==> f.ensures(
                    (&old(self).key_at(k), &old(self)@[k]),
                    false,
                ),
    {
        let n: usize = self.nodes.len();
        let mut i: usize = 0;
        while i < n
            invariant
                self.wf(),
                old(self).wf(),
                n == self.nodes@.len(),
                n == old(self).nodes@.len(),
                i <= n,
                self.index@ == old(self).index@,
                forall|j: int|
                    0 <= j < n ==> (#[trigger] self.nodes@[j].value) == old(self).nodes@[j].value
                        || (j < i && self.nodes@[j].value is None && old(
                        self,
                    ).nodes@[j].value is Some && f.ensures(
                        (&old(self).nodes@[j].value->0.key, &old(self).nodes@[j].value->0.value),
                        false,
                    )),
                forall|j: int|
                    0 <= j < i && (#[trigger] self.nodes@[j].value) is Some ==> f.ensures(
                        (&old(self).nodes@[j].value->0.key, &old(self).nodes@[j].value->0.value),
                        true,
                    ),
                forall|k: &Substring, v: &V| f.requires((k, v)),
            decreases n - i,
        {
            let keep = match &self.nodes[i].value {
                Some(nv) => f(&nv.key, &nv.value),
                None => true,
            };
            if !keep {
                let ghost pre = *self;
                proof {
                    assert(pre.node_ok(i as int));
                    assert(pre@.dom().contains(pre.nodes@[i as int].path@));
                }
                self.nodes[i].value = None;
                proof {
                    assert(self@ =~= pre@.remove(pre.nodes@[i as int].path@));
                    assert(self@.dom() =~= pre@.dom().remove(pre.nodes@[i as int].path@));
                }
                self.length = self.length - 1;
                proof {
                    assert forall|j: int| 0 <= j < self.nodes@.len() implies #[trigger]
                        self.node_ok(j) by {
                        assert(pre.node_ok(j));
                    }
                    assert forall|j: int, e: u32|
                        0 <= j < self.nodes@.len() && self.nodes@[j].children@.contains_key(
                            e,
                        ) implies #[trigger] self.edge_ok(j, e) by {
                        assert(pre.edge_ok(j, e));
                    }
                }
            }
            i = i + 1;
        }
        proof {
            assert forall|k: Seq<char>| #[trigger] self@.contains_key(k) implies {
                &&& old(self)@.contains_key(k)
                &&& self@[k] == old(self)@[k]
                &&& self.key_at(k) == old(self).key_at(k)
                &&& f.ensures((&old(self).key_at(k), &old(self)@[k]), true)
            } by {
                let j = self.index@[k];
                assert(self.nodes@[j].value is Some);
            }
            assert forall|k: Seq<char>| #[trigger]
                old(self)@.contains_key(k) && !self@.contains_key(k) implies f.ensures(
                (&old(self).key_at(k), &old(self)@[k]),
                false,
            ) by {
                let j = self.index@[k];
                assert(self.nodes@[j].value is None);
            }
        }
    }

    /// Every entry of the tree, each key once.
    pub fn iter(&self) -> (out: Vec<(&Substring, &V)>)
        requires
            self.wf(),
        ensures
            out@.len() == self@.dom().len(),
            forall|e: int|
                0 <= e < out@.len() ==> {
                    &&& self@.contains_key((#[trigger] out@[e]).0@)
                    &&& *out@[e].1 == self@[out@[e].0@]
                    &&& *out@[e].0 == self.key_at(out@[e].0@)
                },
            forall|e1: int, e2: int|
                0 <= e1 < e2 < out@.len() ==> (#[trigger] out@[e1]).0@ != (#[trigger] out@[e2]).0@,
            forall|k: Seq<char>|
                self@.contains_key(k) ==> exists|e: int|
                    0 <= e < out@.len() && (#[trigger] out@[e]).0@ == k,
    {
        let mut out: Vec<(&Substring, &V)> = Vec::new();
        let ghost mut seen: Set<Seq<char>> = Set::empty();
        let ghost mut src: Seq<int> = Seq::empty();
        let n: usize = self.nodes.len();
        let mut i: usize = 0;
        while i < n
            invariant
                self.wf(),
                n == self.nodes@.len(),
                i <= n,
                seen.finite(),
                seen.len() == out@.len(),
                src.len() == out@.len(),
                forall|k: Seq<char>|
                    seen.contains(k) <==> (self@.contains_key(k) && self.index@[k] < i),
                forall|e: int|
                    0 <= e < out@.len() ==> {
                        &&& 0 <= (#[trigger] src[e]) < i
                        &&& self.nodes@[src[e]].value is Some
                        &&& *out@[e].0 == self.nodes@[src[e]].value->0.key
                        &&& *out@[e].1 == self.nodes@[src[e]].value->0.value
                    },
                forall|e1: int, e2: int|
                    0 <= e1 < e2 < out@.len() ==> (#[trigger] src[e1]) < (#[trigger] src[e2]),
                forall|k: Seq<char>|
                    seen.contains(k) ==> exists|e: int|
                        0 <= e < out@.len() && (#[trigger] out@[e]).0@ == k,
            decreases n - i,
        {
            proof {
                assert(self.node_ok(i as int));
            }
            match &self.nodes[i].value {
                Some(nv) => {
                    let ghost before = out@;
                    let ghost seen_before = seen;
                    out.push((&nv.key, &nv.value));
                    proof {
                        let path = self.nodes@[i as int].path@;
                        seen = seen.insert(path);
                        src = src.push(i as int);
                        assert forall|k: Seq<char>| seen.contains(k) implies exists|e: int|
                            0 <= e < out@.len() && (#[trigger] out@[e]).0@ == k by {
                            if k == path {
                                assert(out@[out@.len() - 1].0@ == k);
                            } else {
                                assert(seen_before.contains(k));
                                let e = choose|e: int|
                                    0 <= e < before.len() && (#[trigger] before[e]).0@ == k;
                                assert(out@[e].0@ == k);
                            }
                        }
                    }
                },
                None => {},
            }
            i = i + 1;
        }
        proof {
            assert(seen =~= self@.dom());
            assert forall|e: int| 0 <= e < out@.len() implies {
                &&& self@.contains_key((#[trigger] out@[e]).0@)
                &&& *out@[e].1 == self@[out@[e].0@]
                &&& *out@[e].0 == self.key_at(out@[e].0@)
            } by {
                assert(self.node_ok(src[e]));
            }
            assert forall|e1: int, e2: int| 0 <= e1 < e2 < out@.len() implies (
            #[trigger] out@[e1]).0@ != (#[trigger] out@[e2]).0@ by {
                assert(self.node_ok(src[e1]));
                assert(self.node_ok(src[e2]));
            }
        }
        out
    }
}

} // verus!
