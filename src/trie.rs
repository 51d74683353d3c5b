//! A case-insensitive prefix index: a trie over lower-cased characters whose
//! word nodes carry a list of numeric ids.
//!
//! Nodes live in one vector; each node keeps its children in a small
//! `HashMap` from character to the child's position. A child always comes
//! after its parent in the vector. Listing the words under a prefix visits
//! every entry of every bucket, so no word is missed when two characters
//! share a bucket.
use vstd::prelude::*;
use crate::hash_table::HashMap;
use crate::text::{chars_of, lower_of, push_char, to_lower};

verus! {

/// `m` with `id` added to the ids of `w`.
pub open spec fn with_id(m: Map<Seq<char>, Seq<u32>>, w: Seq<char>, id: u32) -> Map<Seq<char>, Seq<u32>> {
    m.insert(w, if m.contains_key(w) { m[w].push(id) } else { seq![id] })
}

/// `m` with `id` added to the ids of each word of `ws`, lower-cased, in turn.
pub open spec fn with_ids(m: Map<Seq<char>, Seq<u32>>, ws: Seq<Seq<char>>, id: u32) -> Map<Seq<char>, Seq<u32>>
    decreases ws.len(),
{
    if ws.len() == 0 {
        m
    } else {
        with_id(with_ids(m, ws.drop_last(), id), lower_of(ws.last()), id)
    }
}

/// The ids of `w` in `m`; none if `w` is absent.
pub open spec fn ids_in(m: Map<Seq<char>, Seq<u32>>, w: Seq<char>) -> Seq<u32> {
    if m.contains_key(w) {
        m[w]
    } else {
        Seq::<u32>::empty()
    }
}

/// Bucket count of each node's child map, one per letter of the alphabet.
pub const CHILD_BUCKETS: usize = 26;

struct TrieNode {
    children: HashMap<char, usize>,
    is_end_of_word: bool,
    has_id: Vec<u32>,
}

impl TrieNode {
    fn new() -> (r: Self)
        ensures
            r.children.wf(),
            r.children.spec_modulo() == CHILD_BUCKETS,
            forall|b: int| 0 <= b < CHILD_BUCKETS ==> (#[trigger] r.children.chains()[b]).len() == 0,
            !r.is_end_of_word,
            r.has_id@.len() == 0,
    {
        TrieNode { children: HashMap::new(CHILD_BUCKETS), is_end_of_word: false, has_id: Vec::new() }
    }
}

pub struct Trie {
    nodes: Vec<TrieNode>,
    /// The characters on the way from the root to each node.
    paths: Ghost<Seq<Seq<char>>>,
    /// The parent of each node but the root.
    parents: Ghost<Seq<int>>,
}

impl Trie {
    pub closed spec fn n(&self) -> int {
        self.nodes@.len() as int
    }

    pub closed spec fn kids(&self, i: int) -> Seq<Seq<(char, usize)>> {
        self.nodes@[i].children.chains()
    }

    /// The shape of the trie: paths are distinct, every child entry leads one
    /// character further, and every node but the root hangs under its parent.
    pub closed spec fn wf_core(&self) -> bool {
        &&& self.nodes@.len() >= 1
        &&& self.paths@.len() == self.nodes@.len()
        &&& self.parents@.len() == self.nodes@.len()
        &&& self.paths@[0] == Seq::<char>::empty()
        &&& forall|i: int, j: int|
            0 <= i < self.n() && 0 <= j < self.n() && #[trigger] self.paths@[i]
                == #[trigger] self.paths@[j] ==> i == j
        &&& forall|i: int|
            0 <= i < self.n() ==> {
                &&& (#[trigger] self.nodes@[i]).children.wf()
                &&& self.nodes@[i].children.spec_modulo() == CHILD_BUCKETS
                &&& !self.nodes@[i].is_end_of_word ==> self.nodes@[i].has_id@.len() == 0
            }
        &&& forall|i: int, b: int, k: int|
            0 <= i < self.n() && 0 <= b < self.kids(i).len() && 0 <= k < self.kids(i)[b].len()
                ==> {
                let e = #[trigger] self.kids(i)[b][k];
                &&& i < e.1 < self.n()
                &&& self.paths@[e.1 as int] == self.paths@[i].push(e.0)
            }
        &&& forall|i: int, b: int, k1: int, k2: int|
            0 <= i < self.n() && 0 <= b < self.kids(i).len() && 0 <= k1 < self.kids(i)[b].len()
                && 0 <= k2 < self.kids(i)[b].len() && (#[trigger] self.kids(i)[b][k1]).0
                == (#[trigger] self.kids(i)[b][k2]).0 ==> k1 == k2
        &&& forall|j: int|
            0 < j < self.n() ==> {
                let p = #[trigger] self.parents@[j];
                &&& 0 <= p < j
                &&& self.paths@[j].len() > 0
                &&& self.paths@[p] == self.paths@[j].drop_last()
                &&& self.nodes@[p].children.lookup(self.paths@[j].last()) == Some(j as usize)
            }
    }

    /// Node `i` lies on the way to a word.
    pub closed spec fn leads_to_word(&self, i: int) -> bool {
        exists|j: int|
            0 <= j < self.n() && self.nodes@[j].is_end_of_word && #[trigger] self.paths@[i].is_prefix_of(
                self.paths@[j],
            )
    }

    pub closed spec fn wf(&self) -> bool {
        &&& self.wf_core()
        &&& forall|i: int| 0 < i < self.n() ==> #[trigger] self.leads_to_word(i)
    }

    /// Position of the node whose path is `w`.
    pub closed spec fn node_at(&self, w: Seq<char>) -> int {
        choose|i: int| 0 <= i < self.n() && self.paths@[i] == w
    }

    pub closed spec fn has_node(&self, w: Seq<char>) -> bool {
        exists|i: int| 0 <= i < self.n() && self.paths@[i] == w
    }

    /// `w` was inserted (in lower case).
    pub closed spec fn is_word(&self, w: Seq<char>) -> bool {
        self.has_node(w) && self.nodes@[self.node_at(w)].is_end_of_word
    }

    proof fn lemma_node_at(&self, i: int)
        requires
            self.wf_core(),
            0 <= i < self.n(),
        ensures
            self.has_node(self.paths@[i]),
            self.node_at(self.paths@[i]) == i,
    {
        assert(self.paths@[i] == self.paths@[i]);
    }

    /// Every prefix of a node's path is the path of a node.
    proof fn lemma_prefix_node(&self, j: int, len: int) -> (m: int)
        requires
            self.wf_core(),
            0 <= j < self.n(),
            0 <= len <= self.paths@[j].len(),
        ensures
            0 <= m < self.n(),
            self.paths@[m] == self.paths@[j].take(len),
        decreases j,
    {
        if len == self.paths@[j].len() {
            assert(self.paths@[j].take(len) == self.paths@[j]);
            j
        } else {
            let p = self.parents@[j];
            assert(j > 0);
            assert(self.paths@[j].drop_last().take(len) == self.paths@[j].take(len));
            self.lemma_prefix_node(p, len)
        }
    }

    /// `new` is `mid` with node `i` marked as a word, where `mid` is `old` with
    /// perhaps new nodes on the way to node `i`.
    proof fn lemma_marked(old: Trie, mid: Trie, new: Trie, i: int)
        requires
            old.wf(),
            mid.wf_core(),
            0 <= i < mid.n(),
            mid.grown_from(old, mid.paths@[i]),
            new.paths == mid.paths,
            new.parents == mid.parents,
            new.nodes@.len() == mid.nodes@.len(),
            forall|m: int| 0 <= m < mid.n() && m != i ==> new.nodes@[m] == mid.nodes@[m],
            new.nodes@[i].children == mid.nodes@[i].children,
            new.nodes@[i].is_end_of_word,
        ensures
            new.wf(),
            new@ == old@.insert(new.paths@[i], new.nodes@[i].has_id@),
            old@.contains_key(new.paths@[i]) ==> old@[new.paths@[i]] == mid.nodes@[i].has_id@,
            !old@.contains_key(new.paths@[i]) ==> mid.nodes@[i].has_id@.len() == 0,
    {
        let p = new.paths@[i];
        assert(new.wf_core()) by {
            assert forall|m: int| 0 <= m < new.n() implies new.kids(m) == mid.kids(m) by {
                if m != i {
                    assert(new.nodes@[m] == mid.nodes@[m]);
                }
            }
        }
        new.lemma_node_at(i);
        assert forall|m: int| 0 < m < new.n() implies #[trigger] new.leads_to_word(m) by {
            if m < old.n() {
                assert(old.leads_to_word(m));
                let j = choose|j: int|
                    0 <= j < old.n() && old.nodes@[j].is_end_of_word
                        && #[trigger] old.paths@[m].is_prefix_of(old.paths@[j]);
                assert(mid.paths@[j] == old.paths@[j]);
                if j == i {
                    assert(new.paths@[m].is_prefix_of(new.paths@[i]));
                } else {
                    assert(new.nodes@[j] == mid.nodes@[j]);
                    assert(new.paths@[m].is_prefix_of(new.paths@[j]));
                }
            } else {
                assert(!mid.nodes@[m].is_end_of_word);
                assert(mid.paths@[m].is_prefix_of(p));
                assert(new.paths@[m].is_prefix_of(new.paths@[i]));
            }
        }
        if old.has_node(p) {
            let m = old.node_at(p);
            assert(mid.paths@[m] == p);
            mid.lemma_node_at(m);
            old.lemma_node_at(m);
        } else if i < old.n() {
            assert(mid.paths@[i] == old.paths@[i]);
            assert(old.has_node(old.paths@[i]));
        }
        assert forall|w: Seq<char>| w != p implies (#[trigger] new.is_word(w) <==> old.is_word(w))
            && (old.is_word(w) ==> new.nodes@[new.node_at(w)].has_id@
            == old.nodes@[old.node_at(w)].has_id@) by {
            if new.has_node(w) {
                let m = new.node_at(w);
                new.lemma_node_at(m);
                assert(new.nodes@[m] == mid.nodes@[m]);
                if m < old.n() {
                    assert(old.paths@[m] == w);
                    old.lemma_node_at(m);
                }
            }
            if old.has_node(w) {
                let m = old.node_at(w);
                old.lemma_node_at(m);
                assert(new.paths@[m] == w);
                new.lemma_node_at(m);
            }
        }
        assert(new@ =~= old@.insert(p, new.nodes@[i].has_id@));
    }

    /// `self` is `before` with a new last node for `path`, hung under node `cur`
    /// by the character `c`.
    proof fn lemma_grown(&self, before: Trie, cur: int, c: char, path: Seq<char>, idx: usize)
        requires
            before.wf_core(),
            idx == before.n(),
            0 <= cur < before.n(),
            path == before.paths@[cur].push(c),
            !before.has_node(path),
            self.n() == before.n() + 1,
            self.paths@ == before.paths@.push(path),
            self.parents@ == before.parents@.push(cur),
            forall|m: int| 0 <= m < before.n() && m != cur ==> self.nodes@[m] == before.nodes@[m],
            self.nodes@[cur].is_end_of_word == before.nodes@[cur].is_end_of_word,
            self.nodes@[cur].has_id@ == before.nodes@[cur].has_id@,
            self.nodes@[cur].children.wf(),
            self.nodes@[cur].children.spec_modulo() == CHILD_BUCKETS,
            self.nodes@[cur].children.chains() == before.nodes@[cur].children.pushed(
                c,
                idx,
            ),
            self.nodes@[before.n()].children.wf(),
            self.nodes@[before.n()].children.spec_modulo() == CHILD_BUCKETS,
            forall|b: int|
                0 <= b < CHILD_BUCKETS ==> (#[trigger] self.nodes@[before.n()].children.chains()[b]).len()
                    == 0,
            !self.nodes@[before.n()].is_end_of_word,
            self.nodes@[before.n()].has_id@.len() == 0,
        ensures
            self.wf_core(),
            forall|m: int|
                0 <= m < before.n() ==> #[trigger] self.paths@[m] == before.paths@[m]
                    && self.nodes@[m].is_end_of_word == before.nodes@[m].is_end_of_word
                    && self.nodes@[m].has_id@ == before.nodes@[m].has_id@,
            self.paths@[idx as int] == path,
            !self.nodes@[idx as int].is_end_of_word,
    {
        let oldch = before.nodes@[cur].children;
        let newch = self.nodes@[cur].children;
        let bc = oldch.bucket_of(c);
        crate::hash_table::lemma_first_index(oldch.chains()[bc], c);
        if oldch.found_at(c) >= 0 {
            let e = before.kids(cur)[bc][oldch.found_at(c)];
            assert(before.paths@[e.1 as int] == path);
            assert(before.has_node(path));
        }
        assert forall|i: int, j: int|
            0 <= i < self.n() && 0 <= j < self.n() && #[trigger] self.paths@[i]
                == #[trigger] self.paths@[j] implies i == j by {
            if i == idx && j < idx {
                assert(before.paths@[j] == path);
            } else if j == idx && i < idx {
                assert(before.paths@[i] == path);
            }
        }
        assert forall|i: int, b: int, k: int|
            0 <= i < self.n() && 0 <= b < self.kids(i).len() && 0 <= k < self.kids(i)[b].len()
                implies {
            let e = #[trigger] self.kids(i)[b][k];
            &&& i < e.1 < self.n()
            &&& self.paths@[e.1 as int] == self.paths@[i].push(e.0)
        } by {
            assert(self.paths@[i] == before.paths@[i] || i == idx);
            if i == cur {
                if b == bc && k == oldch.chains()[bc].len() {
                    assert(self.kids(i)[b][k] == (c, idx));
                } else {
                    assert(self.kids(i)[b][k] == before.kids(i)[b][k]);
                    let e = before.kids(i)[b][k];
                    assert(self.paths@[e.1 as int] == before.paths@[e.1 as int]);
                }
            } else if i < idx {
                assert(self.kids(i) == before.kids(i));
                let e = before.kids(i)[b][k];
                assert(self.paths@[e.1 as int] == before.paths@[e.1 as int]);
            } else {
                assert(self.kids(i)[b].len() == 0);
            }
        }
        assert forall|i: int, b: int, k1: int, k2: int|
            0 <= i < self.n() && 0 <= b < self.kids(i).len() && 0 <= k1 < self.kids(i)[b].len()
                && 0 <= k2 < self.kids(i)[b].len() && (#[trigger] self.kids(i)[b][k1]).0
                == (#[trigger] self.kids(i)[b][k2]).0 implies k1 == k2 by {
            if i == cur {
                let len = oldch.chains()[bc].len();
                if b == bc && k1 == len && k2 < len {
                    assert(oldch.chains()[bc][k2].0 == c);
                } else if b == bc && k2 == len && k1 < len {
                    assert(oldch.chains()[bc][k1].0 == c);
                } else if k1 != k2 {
                    assert(before.kids(i)[b][k1] == self.kids(i)[b][k1]);
                    assert(before.kids(i)[b][k2] == self.kids(i)[b][k2]);
                }
            } else if i < idx {
                assert(self.kids(i) == before.kids(i));
            }
        }
        assert forall|j: int| 0 < j < self.n() implies {
            let p = #[trigger] self.parents@[j];
            &&& 0 <= p < j
            &&& self.paths@[j].len() > 0
            &&& self.paths@[p] == self.paths@[j].drop_last()
            &&& self.nodes@[p].children.lookup(self.paths@[j].last()) == Some(j as usize)
        } by {
            if j == idx {
                assert(path.drop_last() == before.paths@[cur]);
                assert(self.paths@[cur] == before.paths@[cur]);
                assert(self.paths@[j] == path);
                assert(path.last() == c);
                assert(self.parents@[j] == cur);
                crate::hash_table::lemma_lookup_after_insert(oldch, newch, c, idx, c);
            } else {
                let p = before.parents@[j];
                assert(self.parents@[j] == p);
                assert(self.paths@[j] == before.paths@[j]);
                assert(self.paths@[p] == before.paths@[p]);
                if p != cur {
                    assert(self.nodes@[p] == before.nodes@[p]);
                } else {
                    let last = before.paths@[j].last();
                    if last == c {
                        assert(before.paths@[j] == before.paths@[j].drop_last().push(last));
                        assert(before.paths@[j] == path);
                    }
                    crate::hash_table::lemma_lookup_after_insert(oldch, newch, c, idx, last);
                    assert(newch.lookup(last) == oldch.lookup(last));
                }
            }
        }
    }

    /// `self` keeps the nodes of `old` as they were, and any node added since
    /// is not a word and lies on the way to `word`.
    closed spec fn grown_from(&self, old: Trie, word: Seq<char>) -> bool {
        &&& old.n() <= self.n()
        &&& forall|m: int|
            0 <= m < old.n() ==> #[trigger] self.paths@[m] == old.paths@[m]
                && self.nodes@[m].is_end_of_word == old.nodes@[m].is_end_of_word
                && self.nodes@[m].has_id@ == old.nodes@[m].has_id@
        &&& forall|m: int|
            old.n() <= m < self.n() ==> !(#[trigger] self.nodes@[m]).is_end_of_word
                && self.paths@[m].is_prefix_of(word)
    }

    /// Adding one node that is not a word, on the way to `word`, keeps `self`
    /// grown from `start`.
    proof fn lemma_grown_from_step(&self, start: Trie, before: Trie, path: Seq<char>, word: Seq<char>)
        requires
            before.grown_from(start, word),
            self.n() == before.n() + 1,
            forall|m: int|
                0 <= m < before.n() ==> #[trigger] self.paths@[m] == before.paths@[m]
                    && self.nodes@[m].is_end_of_word == before.nodes@[m].is_end_of_word
                    && self.nodes@[m].has_id@ == before.nodes@[m].has_id@,
            self.paths@[before.n()] == path,
            !self.nodes@[before.n()].is_end_of_word,
            path.is_prefix_of(word),
        ensures
            self.grown_from(start, word),
    {
        assert forall|m: int| 0 <= m < start.n() implies #[trigger] self.paths@[m] == start.paths@[m]
            && self.nodes@[m].is_end_of_word == start.nodes@[m].is_end_of_word
            && self.nodes@[m].has_id@ == start.nodes@[m].has_id@ by {
            assert(before.paths@[m] == start.paths@[m]);
            assert(self.paths@[m] == before.paths@[m]);
        }
        assert forall|m: int| start.n() <= m < self.n() implies !(#[trigger] self.nodes@[m]).is_end_of_word
            && self.paths@[m].is_prefix_of(word) by {
            if m < before.n() {
                assert(!before.nodes@[m].is_end_of_word);
                assert(self.paths@[m] == before.paths@[m]);
            }
        }
    }

    /// The node whose path is `word`, made with any nodes missing on the way.
    fn node_for(&mut self, word: &Vec<char>) -> (r: usize)
        requires
            old(self).wf(),
        ensures
            final(self).wf_core(),
            final(self).grown_from(*old(self), word@),
            r < final(self).n(),
            final(self).paths@[r as int] == word@,
    {
        let ghost start = *self;
        let mut cur: usize = 0;
        let mut k: usize = 0;
        while k < word.len()
            invariant
                self.wf_core(),
                start.wf(),
                start == *old(self),
                self.grown_from(start, word@),
                k <= word@.len(),
                cur < self.n(),
                self.paths@[cur as int] == word@.take(k as int),
            decreases word@.len() - k,
        {
            let c = word[k];
            proof {
                assert(word@.take(k + 1) == word@.take(k as int).push(c));
            }
            let found = match self.nodes[cur].children.search_non_mut(&c) {
                Some(next) => Some(*next),
                None => None,
            };
            match found {
                Some(next) => {
                    proof {
                        let ch = self.nodes@[cur as int].children;
                        let b = ch.bucket_of(c);
                        crate::hash_table::lemma_first_index(ch.chains()[b], c);
                        assert(self.kids(cur as int)[b][ch.found_at(c)].0 == c);
                    }
                    cur = next;
                },
                None => {
                    let ghost before = *self;
                    let ghost path = word@.take(k + 1);
                    proof {
                        let ch = before.nodes@[cur as int].children;
                        let b = ch.bucket_of(c);
                        if before.has_node(path) {
                            let m = before.node_at(path);
                            let p = before.parents@[m];
                            assert(path.drop_last() == word@.take(k as int));
                            assert(p == cur);
                            assert(false);
                        }
                        crate::hash_table::lemma_first_index(ch.chains()[b], c);
                    }
                    let idx = self.nodes.len();
                    self.nodes.push(TrieNode::new());
                    self.nodes[cur].children.insert(c, idx);
                    proof {
                        self.paths@ = self.paths@.push(path);
                        self.parents@ = self.parents@.push(cur as int);
                        self.lemma_grown(before, cur as int, c, path, idx);
                        assert(path.is_prefix_of(word@));
                        self.lemma_grown_from_step(start, before, path, word@);
                        assert(self.grown_from(start, word@));
                    }
                    cur = idx;
                },
            }
            k = k + 1;
        }
        assert(word@.take(k as int) == word@);
        cur
    }

    /// Marks the node of `word` (lower-cased) as a word, and adds `id` to its ids.
    pub fn insert_with_id(&mut self, word: &str, id: u32)
        requires
            old(self).wf(),
        ensures
            final(self).wf(),
            final(self)@ == with_id(old(self)@, lower_of(word@), id),
    {
        let lw = to_lower(word);
        let chars = chars_of(lw.as_str());
        let ghost start = *self;
        let i = self.node_for(&chars);
        let ghost mid = *self;
        self.nodes[i].is_end_of_word = true;
        self.nodes[i].has_id.push(id);
        proof {
            Self::lemma_marked(start, mid, *self, i as int);
            assert(self.nodes@[i as int].has_id@ == mid.nodes@[i as int].has_id@.push(id));
            let lw = lower_of(word@);
            if start@.contains_key(lw) {
                assert(self.nodes@[i as int].has_id@ == start@[lw].push(id));
            } else {
                assert(self.nodes@[i as int].has_id@ =~= seq![id]);
            }
        }
    }

    /// Marks the node of `word` (lower-cased) as a word.
    pub fn insert(&mut self, word: &str)
        requires
            old(self).wf(),
        ensures
            final(self).wf(),
            final(self)@ == if old(self)@.contains_key(lower_of(word@)) {
                old(self)@
            } else {
                old(self)@.insert(lower_of(word@), Seq::<u32>::empty())
            },
    {
        let lw = to_lower(word);
        let chars = chars_of(lw.as_str());
        let ghost start = *self;
        let i = self.node_for(&chars);
        let ghost mid = *self;
        self.nodes[i].is_end_of_word = true;
        proof {
            Self::lemma_marked(start, mid, *self, i as int);
            let lw = lower_of(word@);
            assert(self.nodes@[i as int].has_id@ == mid.nodes@[i as int].has_id@);
            if start@.contains_key(lw) {
                assert(self@ =~= start@);
            } else {
                assert(self.nodes@[i as int].has_id@ =~= Seq::<u32>::empty());
            }
        }
    }

    /// Node `i` holds a word exactly when it is marked as one, with the ids it keeps.
    proof fn lemma_found(&self, i: int)
        requires
            self.wf_core(),
            0 <= i < self.n(),
        ensures
            self@.contains_key(self.paths@[i]) == self.nodes@[i].is_end_of_word,
            self.nodes@[i].is_end_of_word ==> self@[self.paths@[i]] == self.nodes@[i].has_id@,
    {
        self.lemma_node_at(i);
    }

    /// Whether `word` (lower-cased) was inserted.
    pub fn search(&self, word: &str) -> (r: bool)
        requires
            self.wf(),
        ensures
            r == self@.contains_key(lower_of(word@)),
    {
        let lw = to_lower(word);
        let chars = chars_of(lw.as_str());
        match self.walk(&chars) {
            Some(i) => {
                proof {
                    self.lemma_found(i as int);
                }
                self.nodes[i].is_end_of_word
            },
            None => false,
        }
    }

    /// The ids of `word` (lower-cased), if it was inserted with at least one.
    pub fn get_id(&self, word: &str) -> (r: Option<Vec<u32>>)
        requires
            self.wf(),
        ensures
            match r {
                Some(v) => {
                    &&& self@.contains_key(lower_of(word@))
                    &&& self@[lower_of(word@)].len() > 0
                    &&& v@ == self@[lower_of(word@)]
                },
                None => !self@.contains_key(lower_of(word@)) || self@[lower_of(word@)].len() == 0,
            },
    {
        let lw = to_lower(word);
        self.ids_of_word(lw.as_str())
    }

    /// The ids of `word` exactly as it is written, if it was inserted with at
    /// least one.
    pub fn ids_of_word(&self, word: &str) -> (r: Option<Vec<u32>>)
        requires
            self.wf(),
        ensures
            match r {
                Some(v) => {
                    &&& self@.contains_key(word@)
                    &&& self@[word@].len() > 0
                    &&& v@ == self@[word@]
                },
                None => !self@.contains_key(word@) || self@[word@].len() == 0,
            },
    {
        let chars = chars_of(word);
        match self.walk(&chars) {
            Some(i) => {
                proof {
                    self.lemma_found(i as int);
                }
                if self.nodes[i].is_end_of_word && self.nodes[i].has_id.len() > 0 {
                    Some(self.nodes[i].has_id.clone())
                } else {
                    None
                }
            },
            None => None,
        }
    }

    /// Whether some inserted word starts with `prefix` (lower-cased). The
    /// empty prefix always does.
    pub fn starts_with(&self, prefix: &str) -> (r: bool)
        requires
            self.wf(),
        ensures
            r == (lower_of(prefix@).len() == 0 || exists|w: Seq<char>|
                self@.contains_key(w) && #[trigger] lower_of(prefix@).is_prefix_of(w)),
    {
        let lp = to_lower(prefix);
        let chars = chars_of(lp.as_str());
        let ghost p = lower_of(prefix@);
        match self.walk(&chars) {
            Some(i) => {
                proof {
                    if i > 0 {
                        assert(self.leads_to_word(i as int));
                        let j = choose|j: int|
                            0 <= j < self.n() && self.nodes@[j].is_end_of_word
                                && #[trigger] self.paths@[i as int].is_prefix_of(self.paths@[j]);
                        self.lemma_found(j);
                        assert(self@.contains_key(self.paths@[j]) && p.is_prefix_of(self.paths@[j]));
                    }
                }
                true
            },
            None => {
                proof {
                    assert(self.paths@[0] == Seq::<char>::empty());
                    if p.len() == 0 {
                        assert(p == Seq::<char>::empty());
                        assert(self.has_node(p));
                    }
                    if exists|w: Seq<char>| self@.contains_key(w) && #[trigger] p.is_prefix_of(w) {
                        let w = choose|w: Seq<char>| self@.contains_key(w) && #[trigger] p.is_prefix_of(w);
                        let j = self.node_at(w);
                        let m = self.lemma_prefix_node(j, p.len() as int);
                        assert(self.paths@[m] == p);
                    }
                }
                false
            },
        }
    }

    /// `w` is an inserted word that starts with `p`.
    pub open spec fn under(&self, p: Seq<char>, w: Seq<char>) -> bool {
        self@.contains_key(w) && p.is_prefix_of(w)
    }

    /// The child of node `i` reached by `d` comes before entry `k` of bucket `b`
    /// in the walk over the buckets of node `i`.
    closed spec fn visited(&self, i: int, b: int, k: int, d: char) -> bool {
        let ch = self.nodes@[i].children;
        &&& ch.found_at(d) >= 0
        &&& (ch.bucket_of(d) < b || (ch.bucket_of(d) == b && ch.found_at(d) < k))
    }

    /// Node `i` has a child for each inserted word that continues its path.
    proof fn lemma_child_of(&self, i: int, w: Seq<char>) -> (m: int)
        requires
            self.wf(),
            0 <= i < self.n(),
            self.under(self.paths@[i], w),
            w.len() > self.paths@[i].len(),
        ensures
            0 <= m < self.n(),
            self.paths@[m] == self.paths@[i].push(w[self.paths@[i].len() as int]),
            self.paths@[m].is_prefix_of(w),
            self.nodes@[i].children.lookup(w[self.paths@[i].len() as int]) == Some(m as usize),
    {
        let p = self.paths@[i];
        let d = w[p.len() as int];
        let j = self.node_at(w);
        let m = self.lemma_prefix_node(j, p.len() as int + 1);
        assert(w.take(p.len() as int + 1).drop_last() == p);
        assert(w.take(p.len() as int + 1) == p.push(d));
        let q = self.parents@[m];
        assert(q == i);
        m
    }

    /// In the node of `q`, the child for `c1` was added before the child for `c2`.
    pub closed spec fn entered_before(&self, q: Seq<char>, c1: char, c2: char) -> bool {
        let ch = self.nodes@[self.node_at(q)].children;
        ch.found_at(c1) < ch.found_at(c2)
    }

    /// Among the children of the node of `q`, the walk visits the one for `c1`
    /// before the one for `c2`: its bucket (character code modulo the bucket
    /// count) comes first, or it sits earlier in the same bucket.
    pub open spec fn child_before(&self, q: Seq<char>, c1: char, c2: char) -> bool {
        let b1 = (c1 as u32) as nat % (CHILD_BUCKETS as nat);
        let b2 = (c2 as u32) as nat % (CHILD_BUCKETS as nat);
        b1 < b2 || (b1 == b2 && self.entered_before(q, c1, c2))
    }

    /// A depth-first walk lists `a` before `b`: `a` is a proper prefix of `b`,
    /// or where they first differ the walk visits `a`'s character first.
    pub open spec fn walk_before(&self, a: Seq<char>, b: Seq<char>) -> bool {
        ||| (a.len() < b.len() && a.is_prefix_of(b))
        ||| exists|k: int|
            0 <= k < a.len() && k < b.len() && a.take(k) == b.take(k) && a[k] != b[k]
                && #[trigger] self.child_before(a.take(k), a[k], b[k])
    }

    /// `after` is `before` followed by each inserted word that starts with `q`,
    /// once each, in the order of a depth-first walk.
    pub closed spec fn appended(&self, q: Seq<char>, before: Seq<String>, after: Seq<String>) -> bool {
        &&& before.len() <= after.len()
        &&& forall|k: int| 0 <= k < before.len() ==> after[k] == before[k]
        &&& forall|k: int| before.len() <= k < after.len() ==> self.under(q, #[trigger] after[k]@)
        &&& forall|k1: int, k2: int|
            before.len() <= k1 < after.len() && before.len() <= k2 < after.len() && k1 != k2
                ==> #[trigger] after[k1]@ != #[trigger] after[k2]@
        &&& forall|w: Seq<char>|
            #[trigger] self.under(q, w) ==> exists|k: int|
                before.len() <= k < after.len() && #[trigger] after[k]@ == w
        &&& forall|k1: int, k2: int|
            before.len() <= k1 < k2 < after.len() ==> self.walk_before(
                #[trigger] after[k1]@,
                #[trigger] after[k2]@,
            )
    }

    /// Where the walk over the children of node `i` stands before entry `k`
    /// of bucket `b`: `res` is `start` followed by the word of node `i`, if it
    /// is one, and the words under the children visited so far.
    closed spec fn partial(&self, i: int, b: int, k: int, start: Seq<String>, res: Seq<String>) -> bool {
        let p = self.paths@[i];
        let s0 = start.len();
        &&& s0 <= res.len()
        &&& forall|j: int| 0 <= j < s0 ==> res[j] == start[j]
        &&& forall|j: int| s0 <= j < res.len() ==> self.under(p, #[trigger] res[j]@)
        &&& forall|j1: int, j2: int|
            s0 <= j1 < res.len() && s0 <= j2 < res.len() && j1 != j2 ==> #[trigger] res[j1]@
                != #[trigger] res[j2]@
        &&& forall|j: int|
            s0 <= j < res.len() ==> #[trigger] res[j]@ == p || (res[j]@.len() > p.len()
                && self.visited(i, b, k, res[j]@[p.len() as int]))
        &&& self@.contains_key(p) ==> s0 < res.len() && res[s0 as int]@ == p
        &&& forall|j1: int, j2: int|
            s0 <= j1 < j2 < res.len() ==> self.walk_before(#[trigger] res[j1]@, #[trigger] res[j2]@)
        &&& forall|w: Seq<char>|
            #[trigger] self.under(p, w) && w.len() > p.len() && self.visited(
                i,
                b,
                k,
                w[p.len() as int],
            ) ==> exists|j: int| s0 <= j < res.len() && #[trigger] res[j]@ == w
    }

    /// Visiting the child at entry `k` of bucket `b` of node `i` moves the
    /// walk on by one entry.
    proof fn lemma_step(
        &self,
        i: int,
        b: int,
        k: int,
        start: Seq<String>,
        before: Seq<String>,
        after: Seq<String>,
    )
        requires
            self.wf(),
            0 <= i < self.n(),
            0 <= b < CHILD_BUCKETS,
            0 <= k < self.kids(i)[b].len(),
            self.partial(i, b, k, start, before),
            self.appended(self.paths@[self.kids(i)[b][k].1 as int], before, after),
        ensures
            self.partial(i, b, k + 1, start, after),
    {
        let p = self.paths@[i];
        let s0 = start.len();
        let ch = self.nodes@[i].children;
        let e = self.kids(i)[b][k];
        let c = e.0;
        let q = self.paths@[e.1 as int];
        assert(q == p.push(c));
        assert(ch.bucket_of(c) == b);
        crate::hash_table::lemma_first_index(ch.chains()[b], c);
        assert(ch.found_at(c) == k) by {
            let f = ch.found_at(c);
            assert(f >= 0 || ch.chains()[b][k].0 != c);
            if f != k {
                assert(ch.chains()[b][f].0 == c);
            }
        }
        assert forall|w: Seq<char>| #[trigger] self.under(q, w) implies self.under(p, w) && w.len()
            > p.len() && w[p.len() as int] == c by {
            assert(w.subrange(0, q.len() as int)[p.len() as int] == w[p.len() as int]);
        }
        assert forall|j: int| s0 <= j < after.len() implies #[trigger] after[j]@ == p || (
        after[j]@.len() > p.len() && self.visited(i, b, k + 1, after[j]@[p.len() as int])) by {
            if j >= before.len() {
                assert(self.under(q, after[j]@));
            } else {
                assert(after[j] == before[j]);
                assert(before[j]@ == p || (before[j]@.len() > p.len() && self.visited(i, b, k, before[j]@[p.len() as int])));
            }
        }
        assert forall|j1: int, j2: int|
            s0 <= j1 < after.len() && s0 <= j2 < after.len() && j1 != j2 implies #[trigger] after[j1]@
            != #[trigger] after[j2]@ by {
            if j1 < before.len() && j2 >= before.len() {
                assert(after[j1] == before[j1]);
                assert(before[j1]@ == p || (before[j1]@.len() > p.len() && self.visited(i, b, k, before[j1]@[p.len() as int])));
                assert(self.under(q, after[j2]@));
            } else if j2 < before.len() && j1 >= before.len() {
                assert(after[j2] == before[j2]);
                assert(before[j2]@ == p || (before[j2]@.len() > p.len() && self.visited(i, b, k, before[j2]@[p.len() as int])));
                assert(self.under(q, after[j1]@));
            } else if j1 < before.len() && j2 < before.len() {
                assert(after[j1] == before[j1]);
                assert(after[j2] == before[j2]);
            }
        }
        assert forall|j: int| s0 <= j < after.len() implies self.under(p, #[trigger] after[j]@) by {
            if j < before.len() {
                assert(after[j] == before[j]);
            }
        }
        assert forall|w: Seq<char>|
            #[trigger] self.under(p, w) && w.len() > p.len() && self.visited(
                i,
                b,
                k + 1,
                w[p.len() as int],
            ) implies exists|j: int| s0 <= j < after.len() && #[trigger] after[j]@ == w by {
            let d = w[p.len() as int];
            if d == c {
                assert(q.is_prefix_of(w)) by {
                    assert(w.subrange(0, q.len() as int) =~= q);
                }
                assert(self.under(q, w));
            } else {
                crate::hash_table::lemma_first_index(ch.chains()[ch.bucket_of(d)], d);
                assert(self.visited(i, b, k, d));
                let j = choose|j: int| s0 <= j < before.len() && #[trigger] before[j]@ == w;
                assert(after[j] == before[j]);
            }
        }
        if self@.contains_key(p) {
            assert(after[s0 as int] == before[s0 as int]);
        }
        self.lemma_node_at(i);
        assert forall|j1: int, j2: int| s0 <= j1 < j2 < after.len() implies self.walk_before(
            #[trigger] after[j1]@,
            #[trigger] after[j2]@,
        ) by {
            if j2 < before.len() {
                assert(after[j1] == before[j1]);
                assert(after[j2] == before[j2]);
            } else if j1 < before.len() {
                let x = before[j1]@;
                let y = after[j2]@;
                assert(after[j1] == before[j1]);
                assert(self.under(q, y));
                assert(self.under(p, y) && y.len() > p.len() && y[p.len() as int] == c);
                assert(y.take(p.len() as int) == p);
                if x == p {
                    assert(x.len() < y.len() && x.is_prefix_of(y));
                } else {
                    assert(x.len() > p.len() && self.visited(i, b, k, x[p.len() as int]));
                    let d = x[p.len() as int];
                    crate::hash_table::lemma_first_index(ch.chains()[ch.bucket_of(d)], d);
                    assert(d != c);
                    assert(self.under(p, x));
                    assert(x.take(p.len() as int) == p);
                    assert(self.child_before(x.take(p.len() as int), d, c));
                    assert(x.take(p.len() as int) == y.take(p.len() as int));
                }
            }
        }
    }

    /// Appends to `result` each inserted word that starts with the path of
    /// node `i`, once each; `prefix` holds that path.
    fn collect_words(&self, i: usize, prefix: &String, result: &mut Vec<String>)
        requires
            self.wf(),
            i < self.n(),
            prefix@ == self.paths@[i as int],
        ensures
            self.appended(prefix@, old(result)@, final(result)@),
        decreases self.n() - i,
    {
        let ghost p = prefix@;
        let ghost start = result@;
        let ghost ii = i as int;
        proof {
            self.lemma_found(ii);
        }
        if self.nodes[i].is_end_of_word {
            result.push(prefix.clone());
        }
        proof {
            assert(self.partial(ii, 0, 0, start, result@));
        }
        let ch = &self.nodes[i].children;
        let nb = ch.bucket_count();
        let mut b: usize = 0;
        while b < nb
            invariant
                self.wf(),
                ii == i,
                i < self.n(),
                *ch == self.nodes@[ii].children,
                nb == CHILD_BUCKETS,
                b <= nb,
                p == self.paths@[ii],
                prefix@ == p,
                start == old(result)@,
                self.partial(ii, b as int, 0, start, result@),
            decreases nb - b,
        {
            let chain = ch.bucket(b);
            let mut k: usize = 0;
            while k < chain.len()
                invariant
                    self.wf(),
                    ii == i,
                    i < self.n(),
                    *ch == self.nodes@[ii].children,
                    nb == CHILD_BUCKETS,
                    b < nb,
                    chain@ == ch.chains()[b as int],
                    k <= chain@.len(),
                    p == self.paths@[ii],
                    prefix@ == p,
                    start == old(result)@,
                    self.partial(ii, b as int, k as int, start, result@),
                decreases chain@.len() - k,
            {
                let c = chain[k].0;
                let m = chain[k].1;
                let ghost before = result@;
                let mut next_prefix = prefix.clone();
                push_char(&mut next_prefix, c);
                proof {
                    assert(self.kids(ii)[b as int][k as int] == (c, m));
                    assert(next_prefix@ == self.paths@[m as int]);
                }
                self.collect_words(m, &next_prefix, result);
                proof {
                    self.lemma_step(ii, b as int, k as int, start, before, result@);
                }
                k = k + 1;
            }
            proof {
                self.lemma_next_bucket(ii, b as int, start, result@);
            }
            b = b + 1;
        }
        proof {
            self.lemma_all_buckets(ii, start, result@);
        }
    }

    /// Past the last entry of bucket `b` the walk stands at bucket `b + 1`.
    proof fn lemma_next_bucket(&self, i: int, b: int, start: Seq<String>, res: Seq<String>)
        requires
            self.wf(),
            0 <= i < self.n(),
            0 <= b < CHILD_BUCKETS,
            self.partial(i, b, self.kids(i)[b].len() as int, start, res),
        ensures
            self.partial(i, b + 1, 0, start, res),
    {
        let ch = self.nodes@[i].children;
        let len = self.kids(i)[b].len() as int;
        assert forall|d: char| #[trigger] self.visited(i, b + 1, 0, d) == self.visited(i, b, len, d) by {
            crate::hash_table::lemma_first_index(ch.chains()[ch.bucket_of(d)], d);
        }
    }

    /// Past the last bucket, every child has been visited.
    proof fn lemma_all_buckets(&self, i: int, start: Seq<String>, res: Seq<String>)
        requires
            self.wf(),
            0 <= i < self.n(),
            self.partial(i, CHILD_BUCKETS as int, 0, start, res),
        ensures
            self.appended(self.paths@[i], start, res),
    {
        let p = self.paths@[i];
        let ch = self.nodes@[i].children;
        assert forall|w: Seq<char>| #[trigger] self.under(p, w) implies exists|j: int|
            start.len() <= j < res.len() && #[trigger] res[j]@ == w by {
            if w.len() > p.len() {
                let m = self.lemma_child_of(i, w);
                let d = w[p.len() as int];
                crate::hash_table::lemma_first_index(ch.chains()[ch.bucket_of(d)], d);
                assert(self.visited(i, CHILD_BUCKETS as int, 0, d));
            } else {
                assert(w == p) by {
                    assert(w.subrange(0, p.len() as int) == w);
                }
                self.lemma_found(i);
            }
        }
    }

    /// Each inserted word that starts with `prefix` (lower-cased), once each,
    /// in the order of a depth-first walk over each node's buckets.
    pub fn get_words_starting_with(&self, prefix: &str) -> (r: Vec<String>)
        requires
            self.wf(),
        ensures
            forall|k: int| 0 <= k < r@.len() ==> self.under(lower_of(prefix@), #[trigger] r@[k]@),
            forall|k1: int, k2: int|
                0 <= k1 < r@.len() && 0 <= k2 < r@.len() && k1 != k2 ==> #[trigger] r@[k1]@
                    != #[trigger] r@[k2]@,
            forall|w: Seq<char>|
                #[trigger] self.under(lower_of(prefix@), w) ==> exists|k: int|
                    0 <= k < r@.len() && #[trigger] r@[k]@ == w,
            forall|k1: int, k2: int|
                0 <= k1 < k2 < r@.len() ==> self.walk_before(#[trigger] r@[k1]@, #[trigger] r@[k2]@),
    {
        let lp = to_lower(prefix);
        let chars = chars_of(lp.as_str());
        let mut result: Vec<String> = Vec::new();
        match self.walk(&chars) {
            Some(i) => {
                self.collect_words(i, &lp, &mut result);
            },
            None => {
                proof {
                    let p = lower_of(prefix@);
                    assert forall|w: Seq<char>| !self.under(p, w) by {
                        if self.under(p, w) {
                            let j = self.node_at(w);
                            let m = self.lemma_prefix_node(j, p.len() as int);
                            assert(self.paths@[m] == p);
                        }
                    }
                }
            },
        }
        result
    }

    pub fn new() -> (r: Self)
        ensures
            r.wf(),
            r@ == Map::<Seq<char>, Seq<u32>>::empty(),
    {
        let root = TrieNode::new();
        let mut nodes: Vec<TrieNode> = Vec::new();
        nodes.push(root);
        let ghost paths = seq![Seq::<char>::empty()];
        let ghost parents = seq![0int];
        let r = Trie { nodes, paths: Ghost(paths), parents: Ghost(parents) };
        assert(r@ =~= Map::<Seq<char>, Seq<u32>>::empty()) by {
            assert forall|w: Seq<char>| !r.is_word(w) by {
                if r.has_node(w) {
                    let i = r.node_at(w);
                    assert(i == 0);
                }
            }
        }
        r
    }

    /// The node whose path is `word`, if there is one.
    fn walk(&self, word: &Vec<char>) -> (r: Option<usize>)
        requires
            self.wf_core(),
        ensures
            match r {
                Some(i) => i < self.n() && self.paths@[i as int] == word@,
                None => !self.has_node(word@),
            },
    {
        let mut cur: usize = 0;
        let mut k: usize = 0;
        while k < word.len()
            invariant
                self.wf_core(),
                k <= word@.len(),
                cur < self.n(),
                self.paths@[cur as int] == word@.take(k as int),
            decreases word@.len() - k,
        {
            let c = word[k];
            let ghost kids = self.kids(cur as int);
            match self.nodes[cur].children.search_non_mut(&c) {
                Some(next) => {
                    proof {
                        let ch = self.nodes@[cur as int].children;
                        let b = ch.bucket_of(c);
                        crate::hash_table::lemma_first_index(ch.chains()[b], c);
                        let e = kids[b][ch.found_at(c)];
                        assert(e.0 == c);
                        assert(word@.take(k + 1) == word@.take(k as int).push(c));
                    }
                    cur = *next;
                },
                None => {
                    proof {
                        if self.has_node(word@) {
                            let j = choose|j: int| 0 <= j < self.n() && self.paths@[j] == word@;
                            let m = self.lemma_prefix_node(j, k + 1);
                            let p = self.parents@[m];
                            assert(word@.take(k + 1).drop_last() == word@.take(k as int));
                            assert(p == cur);
                            assert(false);
                        }
                    }
                    return None;
                },
            }
            k = k + 1;
        }
        assert(word@.take(k as int) == word@);
        Some(cur)
    }
}

impl View for Trie {
    type V = Map<Seq<char>, Seq<u32>>;

    /// Each inserted word, lower-cased, with the ids inserted with it, in order.
    closed spec fn view(&self) -> Map<Seq<char>, Seq<u32>> {
        Map::new(|w: Seq<char>| self.is_word(w), |w: Seq<char>| self.nodes@[self.node_at(w)].has_id@)
    }
}

} // verus!
