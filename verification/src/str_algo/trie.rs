use std::collections::HashMap;
use vstd::prelude::*;
use vstd::std_specs::hash::group_hash_axioms;

verus! {

/// `p` is the start of `w`.
pub open spec fn is_prefix(p: Seq<char>, w: Seq<char>) -> bool {
    p.len() <= w.len() && w.take(p.len() as int) == p
}

/// The number of the words of `words` that start with `p`.
pub open spec fn prefix_count(words: Seq<Seq<char>>, p: Seq<char>) -> nat
    decreases words.len(),
{
    if words.len() == 0 {
        0
    } else {
        prefix_count(words.drop_last(), p) + if is_prefix(p, words.last()) {
            1nat
        } else {
            0nat
        }
    }
}

/// The sum, over the starts of `vc` of the lengths from 1 to `t`, of the
/// number of the words that start with them.
pub open spec fn prefix_sum(words: Seq<Seq<char>>, vc: Seq<char>, t: int) -> nat
    decreases t,
{
    if t <= 0 {
        0
    } else {
        prefix_sum(words, vc, t - 1) + prefix_count(words, vc.take(t))
    }
}

/// One more word counts for the starts of that word.
pub proof fn lemma_prefix_count_push(words: Seq<Seq<char>>, w: Seq<char>, p: Seq<char>)
    ensures
        prefix_count(words.push(w), p) == prefix_count(words, p) + if is_prefix(p, w) {
            1nat
        } else {
            0nat
        },
{
    assert(words.push(w).drop_last() =~= words);
}

/// No more words start with `p` than there are, and no more start with a
/// longer start than with a shorter one.
pub proof fn lemma_prefix_count(words: Seq<Seq<char>>, p: Seq<char>, q: Seq<char>)
    requires
        is_prefix(p, q),
    ensures
        prefix_count(words, q) <= prefix_count(words, p) <= words.len(),
    decreases words.len(),
{
    if words.len() > 0 {
        lemma_prefix_count(words.drop_last(), p, q);
        let w = words.last();
        if is_prefix(q, w) {
            assert(w.take(p.len() as int) =~= w.take(q.len() as int).take(p.len() as int));
        }
    }
}

/// The sums over the starts grow with the length.
pub proof fn lemma_prefix_sum(words: Seq<Seq<char>>, vc: Seq<char>, s: int, t: int)
    requires
        0 <= s <= t,
    ensures
        prefix_sum(words, vc, s) <= prefix_sum(words, vc, t),
    decreases t - s,
{
    if s < t {
        lemma_prefix_sum(words, vc, s, t - 1);
    }
}

/// Where no word starts with the start of `vc` of the length `d + 1`, the
/// sum over the starts up to `d` is the sum over all the starts.
pub proof fn lemma_prefix_sum_rest(words: Seq<Seq<char>>, vc: Seq<char>, d: int, t: int)
    requires
        0 <= d < t <= vc.len(),
        prefix_count(words, vc.take(d + 1)) == 0,
    ensures
        prefix_sum(words, vc, t) == prefix_sum(words, vc, d),
    decreases t - d,
{
    if t > d + 1 {
        lemma_prefix_sum_rest(words, vc, d, t - 1);
        assert(vc.take(t).take(d + 1) =~= vc.take(d + 1));
        lemma_prefix_count(words, vc.take(d + 1), vc.take(t));
    }
}

/// Different characters have different codes.
proof fn lemma_code(a: char, b: char)
    requires
        a as u32 == b as u32,
    ensures
        a == b,
{
    assert(a as u32 as char == a);
    assert(b as u32 as char == b);
}

struct TrieNode {
    vertex: Option<char>,
    is_finished: bool,
    common: usize,
    next_verts: HashMap<u32, usize>,
}

impl TrieNode {
    fn new(c: char, is_finished: bool) -> (node: TrieNode)
        ensures
            node.common == 0,
            node.next_verts@ == Map::<u32, usize>::empty(),
    {
        TrieNode { vertex: Some(c), is_finished, common: 0, next_verts: HashMap::new() }
    }

    fn new_root() -> (node: TrieNode)
        ensures
            node.common == 0,
            node.next_verts@ == Map::<u32, usize>::empty(),
    {
        TrieNode { vertex: None, is_finished: false, common: 0, next_verts: HashMap::new() }
    }
}

/// The child that `map` has for the character `c`, if any.
fn child_of(map: &HashMap<u32, usize>, c: char) -> (found: Option<usize>)
    ensures
        found == (if map@.contains_key(c as u32) {
            Some(map@[c as u32])
        } else {
            None
        }),
{
    broadcast use group_hash_axioms;

    let key: u32 = c as u32;
    match map.get(&key) {
        Some(j) => Some(*j),
        None => None,
    }
}

/// The nodes form a tree by their labels: the node 0 has the empty label;
/// a child has the label of its parent with the character of the edge
/// behind it; no two nodes have one label; and every node but the first is
/// the child of its parent.
spec fn shape(nodes: Seq<TrieNode>, labels: Seq<Seq<char>>, parent: Seq<int>) -> bool {
    &&& nodes.len() == labels.len() == parent.len()
    &&& nodes.len() >= 1
    &&& labels[0].len() == 0
    &&& forall|i: int, c: u32|
        0 <= i < nodes.len() && #[trigger] nodes[i].next_verts@.contains_key(c) ==> {
            let j = nodes[i].next_verts@[c];
            &&& 1 <= j < nodes.len()
            &&& labels[j as int].len() == labels[i].len() + 1
            &&& labels[j as int].drop_last() == labels[i]
            &&& labels[j as int].last() as u32 == c
        }
    &&& forall|i: int, j: int|
        0 <= i < nodes.len() && 0 <= j < nodes.len() && #[trigger] labels[i] == #[trigger] labels[j]
            ==> i == j
    &&& forall|j: int|
        1 <= j < nodes.len() ==> {
            &&& 0 <= #[trigger] parent[j] < nodes.len()
            &&& labels[j].len() >= 1
            &&& labels[parent[j]] == labels[j].drop_last()
            &&& nodes[parent[j]].next_verts@.contains_key(labels[j].last() as u32)
            &&& nodes[parent[j]].next_verts@[labels[j].last() as u32] == j
        }
}

/// The nodes count the words of `words`, and the word `w` as far as its
/// starts are shorter than `t`: each node holds the number of words that
/// start with its label; a node has a child for every character with which
/// a word goes on behind its label; and only starts of words have nodes.
spec fn counted(
    nodes: Seq<TrieNode>,
    labels: Seq<Seq<char>>,
    words: Seq<Seq<char>>,
    w: Seq<char>,
    t: int,
) -> bool {
    &&& forall|i: int|
        0 <= i < nodes.len() ==> (#[trigger] nodes[i]).common == prefix_count(words, labels[i])
            + if is_prefix(labels[i], w) && labels[i].len() < t {
            1nat
        } else {
            0nat
        }
    &&& forall|i: int, ch: char|
        0 <= i < nodes.len() && (prefix_count(words, #[trigger] labels[i].push(ch)) > 0 || (
        is_prefix(labels[i].push(ch), w) && labels[i].len() < t))
            ==> nodes[i].next_verts@.contains_key(ch as u32)
    &&& forall|j: int|
        1 <= j < nodes.len() ==> prefix_count(words, #[trigger] labels[j]) >= 1 || (is_prefix(
            labels[j],
            w,
        ) && labels[j].len() <= t)
}

/// The nodes that count the words of `words` and the whole of the word `w`
/// count the words with `w` behind them.
proof fn lemma_counted_done(
    nodes: Seq<TrieNode>,
    labels: Seq<Seq<char>>,
    parent: Seq<int>,
    words: Seq<Seq<char>>,
    w: Seq<char>,
)
    requires
        shape(nodes, labels, parent),
        counted(nodes, labels, words, w, w.len() as int + 1),
    ensures
        counted(nodes, labels, words.push(w), Seq::empty(), 0),
{
    let all = words.push(w);
    let none = Seq::<char>::empty();
    assert forall|i: int| 0 <= i < nodes.len() implies (#[trigger] nodes[i]).common
        == prefix_count(all, labels[i]) + if is_prefix(labels[i], none) && labels[i].len() < 0 {
        1nat
    } else {
        0nat
    } by {
        lemma_prefix_count_push(words, w, labels[i]);
    }
    assert forall|i: int, ch: char|
        0 <= i < nodes.len() && (prefix_count(all, #[trigger] labels[i].push(ch)) > 0 || (
        is_prefix(labels[i].push(ch), none) && labels[i].len() < 0)) implies nodes[i].next_verts@.contains_key(
        ch as u32,
    ) by {
        lemma_prefix_count_push(words, w, labels[i].push(ch));
    }
    assert forall|j: int| 1 <= j < nodes.len() implies prefix_count(all, #[trigger] labels[j]) >= 1
        || (is_prefix(labels[j], none) && labels[j].len() <= 0) by {
        lemma_prefix_count_push(words, w, labels[j]);
    }
}

/// A set of words in a tree of their characters, which counts for every
/// start how many of the words have it.
pub struct Trie {
    nodes: Vec<TrieNode>,
    labels: Ghost<Seq<Seq<char>>>,
    parent: Ghost<Seq<int>>,
    words: Ghost<Seq<Seq<char>>>,
}

impl Trie {
    /// The words that were put in, in order.
    pub closed spec fn words(&self) -> Seq<Seq<char>> {
        self.words@
    }

    /// The tree is made of the starts of the words and holds their
    /// numbers.
    pub closed spec fn wf(&self) -> bool {
        &&& shape(self.nodes@, self.labels@, self.parent@)
        &&& counted(self.nodes@, self.labels@, self.words@, Seq::empty(), 0)
        &&& self.words@.len() <= usize::MAX
    }

    /// A tree without words.
    pub fn new() -> (trie: Trie)
        ensures
            trie.wf(),
            trie.words() == Seq::<Seq<char>>::empty(),
    {
        let mut nodes: Vec<TrieNode> = Vec::new();
        nodes.push(TrieNode::new_root());
        let ghost labels = Seq::<Seq<char>>::empty().push(Seq::<char>::empty());
        let ghost parent = Seq::<int>::empty().push(0int);
        Trie { nodes, labels: Ghost(labels), parent: Ghost(parent), words: Ghost(Seq::empty()) }
    }

    /// Walking down from a node with the label `vc.take(t)` by the
    /// character `vc[t]`: the child, where there is one, has the label
    /// `vc.take(t + 1)`, with which at least one word starts; where there
    /// is none, no word starts with it.
    proof fn lemma_step(&self, vc: Seq<char>, t: int, cur: int)
        requires
            self.wf(),
            0 <= t < vc.len(),
            0 <= cur < self.nodes@.len(),
            self.labels@[cur] == vc.take(t),
        ensures
            self.nodes@[cur].next_verts@.contains_key(vc[t] as u32) ==> {
                let j = self.nodes@[cur].next_verts@[vc[t] as u32];
                &&& 1 <= j < self.nodes@.len()
                &&& self.labels@[j as int] == vc.take(t + 1)
                &&& self.nodes@[j as int].common == prefix_count(self.words@, vc.take(t + 1))
                &&& prefix_count(self.words@, vc.take(t + 1)) >= 1
            },
            !self.nodes@[cur].next_verts@.contains_key(vc[t] as u32) ==> prefix_count(
                self.words@,
                vc.take(t + 1),
            ) == 0,
    {
        let ch = vc[t];
        assert(self.labels@[cur].push(ch) =~= vc.take(t + 1));
        if self.nodes@[cur].next_verts@.contains_key(ch as u32) {
            let j = self.nodes@[cur].next_verts@[ch as u32] as int;
            assert(self.labels@[j].drop_last() == vc.take(t));
            lemma_code(self.labels@[j].last(), ch);
            assert(self.labels@[j] =~= vc.take(t + 1));
            assert(prefix_count(self.words@, self.labels@[j]) >= 1);
            assert(self.nodes@[j].common == prefix_count(self.words@, self.labels@[j]));
        }
    }

    /// The sum, over the starts of `vc`, of the number of words that start
    /// with them.
    pub fn abc353e(&self, vc: &[char]) -> (ret: usize)
        requires
            self.wf(),
            prefix_sum(self.words(), vc@, vc@.len() as int) <= usize::MAX,
        ensures
            ret == prefix_sum(self.words(), vc@, vc@.len() as int),
    {
        let mut ret: usize = 0;
        let mut cur: usize = 0;
        let mut t: usize = 0;
        proof {
            assert(vc@.take(0) =~= Seq::<char>::empty());
            assert(self.labels@[0] =~= Seq::<char>::empty());
        }
        while t < vc.len()
            invariant
                self.wf(),
                t <= vc@.len(),
                cur < self.nodes@.len(),
                self.labels@[cur as int] == vc@.take(t as int),
                ret == prefix_sum(self.words@, vc@, t as int),
                prefix_sum(self.words@, vc@, vc@.len() as int) <= usize::MAX,
            decreases vc@.len() - t,
        {
            proof {
                self.lemma_step(vc@, t as int, cur as int);
                lemma_prefix_sum(self.words@, vc@, t + 1, vc@.len() as int);
            }
            match child_of(&self.nodes[cur].next_verts, vc[t]) {
                Some(j) => {
                    cur = j;
                    ret += self.nodes[cur].common;
                },
                None => {
                    proof {
                        lemma_prefix_sum_rest(self.words@, vc@, t as int, vc@.len() as int);
                    }
                    return ret;
                },
            }
            t += 1;
        }
        ret
    }

    /// Whether some word starts with `vc`, or `vc` is empty.
    pub fn contains(&mut self, vc: &[char]) -> (found: bool)
        requires
            old(self).wf(),
        ensures
            final(self).wf(),
            final(self).words() == old(self).words(),
            found == (vc@.len() == 0 || prefix_count(old(self).words(), vc@) > 0),
    {
        let mut cur: usize = 0;
        let mut t: usize = 0;
        proof {
            assert(vc@.take(0) =~= Seq::<char>::empty());
            assert(self.labels@[0] =~= Seq::<char>::empty());
        }
        while t < vc.len()
            invariant
                self.wf(),
                *self == *old(self),
                t <= vc@.len(),
                cur < self.nodes@.len(),
                self.labels@[cur as int] == vc@.take(t as int),
                t > 0 ==> prefix_count(self.words@, vc@.take(t as int)) > 0,
            decreases vc@.len() - t,
        {
            proof {
                self.lemma_step(vc@, t as int, cur as int);
            }
            match child_of(&self.nodes[cur].next_verts, vc[t]) {
                Some(j) => {
                    cur = j;
                },
                None => {
                    proof {
                        assert(vc@.take(vc@.len() as int) =~= vc@);
                        assert(vc@.take(t + 1) =~= vc@.take(vc@.len() as int).take(t + 1));
                        lemma_prefix_count(self.words@, vc@.take(t + 1), vc@);
                    }
                    return false;
                },
            }
            t += 1;
        }
        proof {
            assert(vc@.take(vc@.len() as int) =~= vc@);
        }
        true
    }

    /// The length of the longest start of `vc` all of whose starts, but the
    /// empty one, are starts of at least two words.
    pub fn lcp(&mut self, vc: &[char]) -> (ret: usize)
        requires
            old(self).wf(),
        ensures
            final(self).wf(),
            final(self).words() == old(self).words(),
            ret <= vc@.len(),
            forall|s: int| 1 <= s <= ret ==> prefix_count(old(self).words(), #[trigger] vc@.take(s)) >= 2,
            ret < vc@.len() ==> prefix_count(old(self).words(), vc@.take(ret + 1)) < 2,
    {
        let mut cur: usize = 0;
        let mut ret: usize = 0;
        proof {
            assert(vc@.take(0) =~= Seq::<char>::empty());
            assert(self.labels@[0] =~= Seq::<char>::empty());
        }
        while ret < vc.len()
            invariant
                self.wf(),
                *self == *old(self),
                ret <= vc@.len(),
                cur < self.nodes@.len(),
                self.labels@[cur as int] == vc@.take(ret as int),
                forall|s: int| 1 <= s <= ret ==> prefix_count(self.words@, #[trigger] vc@.take(s)) >= 2,
            decreases vc@.len() - ret,
        {
            proof {
                self.lemma_step(vc@, ret as int, cur as int);
            }
            match child_of(&self.nodes[cur].next_verts, vc[ret]) {
                Some(j) => {
                    cur = j;
                    if self.nodes[cur].common >= 2 {
                        ret += 1
                    } else {
                        return ret;
                    }
                },
                None => {
                    return ret;
                },
            }
        }
        ret
    }

    /// Puts the word `vc` in.
    pub fn insert(&mut self, vc: &[char])
        requires
            old(self).wf(),
            old(self).words().len() < usize::MAX,
        ensures
            final(self).wf(),
            final(self).words() == old(self).words().push(vc@),
    {
        let ghost w = vc@;
        let ghost all = self.words@;
        let mut cur: usize = 0;
        let mut t: usize = 0;
        proof {
            assert(w.take(0) =~= Seq::<char>::empty());
            assert(self.labels@[0] =~= Seq::<char>::empty());
            assert(counted(self.nodes@, self.labels@, all, w, 0)) by {
                assert forall|j: int| 1 <= j < self.nodes@.len() implies prefix_count(
                    all,
                    #[trigger] self.labels@[j],
                ) >= 1 || (is_prefix(self.labels@[j], w) && self.labels@[j].len() <= 0) by {
                    assert(self.labels@[j].len() >= 1) by {
                        assert(0 <= self.parent@[j]);
                    }
                }
            }
        }
        while t < vc.len()
            invariant
                w == vc@,
                all == old(self).words@,
                self.words@ == all,
                all.len() < usize::MAX,
                t <= w.len(),
                cur < self.nodes@.len(),
                self.labels@[cur as int] == w.take(t as int),
                shape(self.nodes@, self.labels@, self.parent@),
                counted(self.nodes@, self.labels@, all, w, t as int),
            decreases w.len() - t,
        {
            let ghost nodes0 = self.nodes@;
            let ghost labels0 = self.labels@;
            let ghost parent0 = self.parent@;
            let ch = vc[t];
            proof {
                assert(labels0[cur as int].take(labels0[cur as int].len() as int)
                    =~= labels0[cur as int]);
                lemma_prefix_count(all, labels0[cur as int], labels0[cur as int]);
                assert(labels0[cur as int].push(ch) =~= w.take(t + 1));
                assert(w.take(t + 1).take(t as int) =~= w.take(t as int));
            }
            self.nodes[cur].common += 1;
            let found = child_of(&self.nodes[cur].next_verts, ch);
            let next = match found {
                Some(j) => j,
                None => {
                    let j = self.nodes.len();
                    self.nodes.push(TrieNode::new(ch, false));
                    proof {
                        broadcast use group_hash_axioms;

                    }
                    self.nodes[cur].next_verts.insert(ch as u32, j);
                    proof {
                        self.labels@ = labels0.push(labels0[cur as int].push(ch));
                        self.parent@ = parent0.push(cur as int);
                    }
                    j
                },
            };
            proof {
                broadcast use group_hash_axioms;

                let nodes = self.nodes@;
                let labels = self.labels@;
                let parent = self.parent@;
                let n0 = nodes0.len() as int;
                let created = found is None;
                let fresh = labels0[cur as int].push(ch);
                assert(next < nodes.len());
                assert(labels[next as int] =~= w.take(t + 1)) by {
                    if !created {
                        let j = nodes0[cur as int].next_verts@[ch as u32] as int;
                        assert(labels0[j].drop_last() == labels0[cur as int]);
                        lemma_code(labels0[j].last(), ch);
                        assert(labels0[j] =~= fresh);
                    }
                }
                if created {
                    assert(!nodes0[cur as int].next_verts@.contains_key(ch as u32));
                    assert(prefix_count(all, fresh) == 0);
                    assert forall|i: int| 0 <= i < n0 implies labels0[i] != fresh by {
                        if labels0[i] == fresh {
                            assert(i >= 1);
                            let p = parent0[i];
                            assert(labels0[p] == labels0[i].drop_last());
                            assert(fresh.drop_last() =~= labels0[cur as int]);
                            assert(p == cur);
                            assert(fresh.last() == ch);
                        }
                    }
                }
                assert forall|i: int| 0 <= i < n0 implies labels[i] == labels0[i] by {}
                assert forall|i: int| 0 <= i < n0 && i != cur implies nodes[i].next_verts@
                    == nodes0[i].next_verts@ && nodes[i].common == nodes0[i].common by {}
                assert(nodes[cur as int].common == nodes0[cur as int].common + 1);
                assert(nodes[cur as int].next_verts@ == (if created {
                    nodes0[cur as int].next_verts@.insert(ch as u32, n0 as usize)
                } else {
                    nodes0[cur as int].next_verts@
                }));
                assert(shape(nodes, labels, parent)) by {
                    assert forall|i: int, c: u32|
                        0 <= i < nodes.len() && #[trigger] nodes[i].next_verts@.contains_key(
                            c,
                        ) implies {
                        let j = nodes[i].next_verts@[c];
                        &&& 1 <= j < nodes.len()
                        &&& labels[j as int].len() == labels[i].len() + 1
                        &&& labels[j as int].drop_last() == labels[i]
                        &&& labels[j as int].last() as u32 == c
                    } by {
                        if created && i == cur && c == ch as u32 {
                            assert(fresh.drop_last() =~= labels0[cur as int]);
                        } else if i < n0 {
                            assert(nodes0[i].next_verts@.contains_key(c));
                            let j = nodes0[i].next_verts@[c] as int;
                            assert(labels[j] == labels0[j]);
                        }
                    }
                    assert forall|i: int, j: int|
                        0 <= i < nodes.len() && 0 <= j < nodes.len() && #[trigger] labels[i]
                            == #[trigger] labels[j] implies i == j by {
                        if i < n0 && j < n0 {
                            assert(labels0[i] == labels0[j]);
                        }
                    }
                    assert forall|j: int| 1 <= j < nodes.len() implies {
                        &&& 0 <= #[trigger] parent[j] < nodes.len()
                        &&& labels[j].len() >= 1
                        &&& labels[parent[j]] == labels[j].drop_last()
                        &&& nodes[parent[j]].next_verts@.contains_key(labels[j].last() as u32)
                        &&& nodes[parent[j]].next_verts@[labels[j].last() as u32] == j
                    } by {
                        if j < n0 {
                            assert(parent[j] == parent0[j]);
                            assert(0 <= parent0[j] < n0);
                            assert(nodes0[parent0[j]].next_verts@.contains_key(
                                labels0[j].last() as u32,
                            ));
                        } else {
                            assert(fresh.drop_last() =~= labels0[cur as int]);
                        }
                    }
                }
                assert(counted(nodes, labels, all, w, t + 1)) by {
                    assert forall|i: int| 0 <= i < nodes.len() implies (#[trigger] nodes[i]).common
                        == prefix_count(all, labels[i]) + if is_prefix(labels[i], w)
                        && labels[i].len() < t + 1 {
                        1nat
                    } else {
                        0nat
                    } by {
                        if i < n0 {
                            assert(nodes0[i].common == prefix_count(all, labels0[i]) + if is_prefix(
                                labels0[i],
                                w,
                            ) && labels0[i].len() < t {
                                1nat
                            } else {
                                0nat
                            });
                            if i != cur && is_prefix(labels0[i], w) && labels0[i].len() == t {
                                assert(labels0[i] == labels0[cur as int]);
                            }
                            if i == cur {
                                assert(w.take(t as int).len() == t);
                            }
                        }
                    }
                    assert forall|i: int, c2: char|
                        0 <= i < nodes.len() && (prefix_count(all, #[trigger] labels[i].push(c2))
                            > 0 || (is_prefix(labels[i].push(c2), w) && labels[i].len() < t
                            + 1)) implies nodes[i].next_verts@.contains_key(c2 as u32) by {
                        if i < n0 {
                            if prefix_count(all, labels0[i].push(c2)) > 0 || (is_prefix(
                                labels0[i].push(c2),
                                w,
                            ) && labels0[i].len() < t) {
                                assert(nodes0[i].next_verts@.contains_key(c2 as u32));
                            } else {
                                assert(labels0[i].len() == t);
                                assert(w.take(t + 1).take(t as int) =~= w.take(t as int));
                                assert(labels0[i].push(c2).drop_last() =~= labels0[i]);
                                assert(w.take(t + 1).drop_last() =~= w.take(t as int));
                                assert(labels0[i].push(c2) == w.take(t + 1));
                                assert(labels0[i] == labels0[cur as int]);
                                assert(labels0[i].push(c2).last() == c2);
                                assert(w.take(t + 1).last() == ch);
                            }
                        } else {
                            assert(fresh.push(c2).take(fresh.len() as int) =~= fresh);
                            lemma_prefix_count(all, fresh, fresh.push(c2));
                        }
                    }
                    assert forall|j: int| 1 <= j < nodes.len() implies prefix_count(
                        all,
                        #[trigger] labels[j],
                    ) >= 1 || (is_prefix(labels[j], w) && labels[j].len() <= t + 1) by {
                        if j < n0 {
                            assert(prefix_count(all, labels0[j]) >= 1 || (is_prefix(labels0[j], w)
                                && labels0[j].len() <= t));
                        } else {
                            assert(w.take(t + 1).len() == t + 1);
                        }
                    }
                }
            }
            cur = next;
            t += 1;
        }
        let ghost nodes0 = self.nodes@;
        proof {
            assert(w.take(w.len() as int) =~= w);
            assert(self.labels@[cur as int].take(self.labels@[cur as int].len() as int)
                =~= self.labels@[cur as int]);
            lemma_prefix_count(all, self.labels@[cur as int], self.labels@[cur as int]);
        }
        self.nodes[cur].common += 1;
        self.nodes[cur].is_finished = true;
        proof {
            let nodes = self.nodes@;
            let labels = self.labels@;
            assert forall|i: int| 0 <= i < nodes.len() && i != cur implies nodes[i].next_verts@
                == nodes0[i].next_verts@ && nodes[i].common == nodes0[i].common by {}
            assert(nodes[cur as int].next_verts@ == nodes0[cur as int].next_verts@);
            assert(shape(nodes, labels, self.parent@)) by {
                assert forall|i: int, c: u32|
                    0 <= i < nodes.len() && #[trigger] nodes[i].next_verts@.contains_key(
                        c,
                    ) implies {
                    let j = nodes[i].next_verts@[c];
                    &&& 1 <= j < nodes.len()
                    &&& labels[j as int].len() == labels[i].len() + 1
                    &&& labels[j as int].drop_last() == labels[i]
                    &&& labels[j as int].last() as u32 == c
                } by {
                    assert(nodes0[i].next_verts@.contains_key(c));
                }
                assert forall|j: int| 1 <= j < nodes.len() implies {
                    &&& 0 <= #[trigger] self.parent@[j] < nodes.len()
                    &&& labels[j].len() >= 1
                    &&& labels[self.parent@[j]] == labels[j].drop_last()
                    &&& nodes[self.parent@[j]].next_verts@.contains_key(labels[j].last() as u32)
                    &&& nodes[self.parent@[j]].next_verts@[labels[j].last() as u32] == j
                } by {
                    assert(nodes0[self.parent@[j]].next_verts@.contains_key(
                        labels[j].last() as u32,
                    ));
                }
            }
            assert(counted(nodes, labels, all, w, w.len() as int + 1)) by {
                assert forall|i: int| 0 <= i < nodes.len() implies (#[trigger] nodes[i]).common
                    == prefix_count(all, labels[i]) + if is_prefix(labels[i], w) && labels[i].len()
                    < w.len() + 1 {
                    1nat
                } else {
                    0nat
                } by {
                    assert(nodes0[i].common == prefix_count(all, labels[i]) + if is_prefix(
                        labels[i],
                        w,
                    ) && labels[i].len() < w.len() {
                        1nat
                    } else {
                        0nat
                    });
                    if i != cur && is_prefix(labels[i], w) && labels[i].len() == w.len() {
                        assert(labels[i] == labels[cur as int]);
                    }
                }
                assert forall|i: int, c2: char|
                    0 <= i < nodes.len() && (prefix_count(all, #[trigger] labels[i].push(c2)) > 0
                        || (is_prefix(labels[i].push(c2), w) && labels[i].len() < w.len()
                        + 1)) implies nodes[i].next_verts@.contains_key(c2 as u32) by {
                    assert(nodes0[i].next_verts@.contains_key(c2 as u32));
                }
                assert forall|j: int| 1 <= j < nodes.len() implies prefix_count(
                    all,
                    #[trigger] labels[j],
                ) >= 1 || (is_prefix(labels[j], w) && labels[j].len() <= w.len() + 1) by {
                    assert(prefix_count(all, labels[j]) >= 1 || (is_prefix(labels[j], w)
                        && labels[j].len() <= w.len()));
                }
            }
            lemma_counted_done(nodes, labels, self.parent@, all, w);
            self.words@ = all.push(w);
        }
    }
}

} // verus!
