use vstd::prelude::*;

use crate::budget::{
    extensions, extensions_through, find_char, lemma_anagrams_extend_empty, lemma_empty_fits,
    lemma_extensions_missing, lemma_extensions_step, subset_anagrams,
};
use crate::solver::AnagramSolver;
use crate::text::{chars_of, pop_char, push_char};
use crate::word_set::{lemma_views_push, views_of, WordSet};

verus! {

/// One node of the tree, stored in the tree's arena. `value` tells whether the
/// path from the root to this node spells a stored word; each edge holds the
/// character it is labelled with and the arena index of the child it leads to.
pub struct TrieNode {
    value: bool,
    edges: Vec<(char, usize)>,
}

impl TrieNode {
    /// A node that marks no word and has no edges.
    pub closed spec fn is_bare(&self) -> bool {
        !self.value && self.edges@.len() == 0
    }

    pub fn new() -> (r: TrieNode)
        ensures
            r.is_bare(),
    {
        TrieNode { value: false, edges: Vec::new() }
    }
}

/// Whether `edges` holds an edge labelled `c` that leads to `child`.
spec fn has_edge(edges: Seq<(char, usize)>, c: char, child: usize) -> bool {
    exists|k: int| 0 <= k < edges.len() && #[trigger] edges[k] == (c, child)
}

/// What `Trie::contains` reports for `w` on a tree that stores `words`: the
/// empty word is always reported present.
pub open spec fn reported(words: Set<Seq<char>>, w: Seq<char>) -> bool {
    w.len() == 0 || words.contains(w)
}

/// A prefix tree of words. The nodes live in an arena indexed by `usize`; node 0
/// is the root. `paths` maps each character sequence spelled by a path from the
/// root to the node that the path ends at.
pub struct Trie {
    nodes: Vec<TrieNode>,
    size: usize,
    paths: Ghost<Map<Seq<char>, usize>>,
}

impl View for Trie {
    type V = Set<Seq<char>>;

    /// The set of stored words.
    closed spec fn view(&self) -> Set<Seq<char>> {
        self.words()
    }
}

impl Trie {
    spec fn words(&self) -> Set<Seq<char>> {
        self.paths@.dom().filter(|p: Seq<char>| self.nodes@[self.paths@[p] as int].value)
    }

    /// The structure of the tree, where the node at `loose` may be a leaf that
    /// marks no word.
    spec fn shape(&self, loose: Seq<char>) -> bool {
        let paths = self.paths@;
        let nodes = self.nodes@;
        &&& nodes.len() >= 1
        &&& paths.dom().finite()
        &&& paths.dom().len() <= nodes.len()
        &&& paths.contains_key(Seq::empty())
        &&& paths[Seq::empty()] == 0
        &&& forall|p: Seq<char>| #[trigger] paths.contains_key(p) ==> paths[p] < nodes.len()
        &&& forall|p: Seq<char>, q: Seq<char>|
            paths.contains_key(p) && paths.contains_key(q) && #[trigger] paths[p] == #[trigger] paths[q]
                ==> p == q
        &&& forall|p: Seq<char>| #[trigger] paths.contains_key(p) && p.len() > 0
            ==> paths.contains_key(p.drop_last())
                && has_edge(nodes[paths[p.drop_last()] as int].edges@, p.last(), paths[p])
        &&& forall|p: Seq<char>, k: int|
            #![trigger nodes[paths[p] as int].edges@[k]]
            paths.contains_key(p) && 0 <= k < nodes[paths[p] as int].edges@.len()
            ==> paths.contains_key(p.push(nodes[paths[p] as int].edges@[k].0))
                && paths[p.push(nodes[paths[p] as int].edges@[k].0)] == nodes[paths[p] as int].edges@[k].1
        &&& forall|i: int, k1: int, k2: int|
            0 <= i < nodes.len() && 0 <= k1 < k2 < nodes[i].edges@.len()
            ==> #[trigger] nodes[i].edges@[k1].0 != #[trigger] nodes[i].edges@[k2].0
        &&& forall|p: Seq<char>| #[trigger] paths.contains_key(p) && p.len() > 0 && p != loose
            ==> nodes[paths[p] as int].value || nodes[paths[p] as int].edges@.len() > 0
    }

    /// Well-formedness: the tree's shape holds, no leaf other than the root
    /// marks no word, and `size` counts the stored words.
    pub closed spec fn wf(&self) -> bool {
        &&& self.shape(Seq::empty())
        &&& self.size == self.words().len()
    }

    /// Every prefix of a path in the tree is a path in the tree.
    proof fn lemma_prefix_in_tree(&self, loose: Seq<char>, p: Seq<char>, k: int)
        requires
            self.shape(loose),
            self.paths@.contains_key(p),
            0 <= k <= p.len(),
        ensures
            self.paths@.contains_key(p.take(k)),
        decreases p.len() - k,
    {
        if k < p.len() {
            self.lemma_prefix_in_tree(loose, p, k + 1);
            assert(p.take(k + 1).drop_last() == p.take(k));
        } else {
            assert(p.take(k) == p);
        }
    }

    /// Adding a fresh node `n` under the node at `p`, by an edge labelled `c`,
    /// keeps the shape and the stored words; the loose node moves to `p + c`.
    proof fn lemma_grow(&self, old_trie: Trie, p: Seq<char>, c: char, n: usize)
        requires
            old_trie.shape(p),
            old_trie.paths@.contains_key(p),
            !old_trie.paths@.contains_key(p.push(c)),
            n == old_trie.nodes@.len(),
            forall|k: int| 0 <= k < old_trie.nodes@[old_trie.paths@[p] as int].edges@.len()
                ==> old_trie.nodes@[old_trie.paths@[p] as int].edges@[k].0 != c,
            self.nodes@.len() == n + 1,
            self.nodes@[n as int].is_bare(),
            self.nodes@[old_trie.paths@[p] as int].value
                == old_trie.nodes@[old_trie.paths@[p] as int].value,
            self.nodes@[old_trie.paths@[p] as int].edges@
                == old_trie.nodes@[old_trie.paths@[p] as int].edges@.push((c, n)),
            forall|i: int| 0 <= i < n && i != old_trie.paths@[p]
                ==> self.nodes@[i] == old_trie.nodes@[i],
            self.paths@ == old_trie.paths@.insert(p.push(c), n),
        ensures
            self.shape(p.push(c)),
            self.words() == old_trie.words(),
    {
        let cur = old_trie.paths@[p];
        let q0 = p.push(c);
        assert(q0.drop_last() == p);
        let paths = self.paths@;
        let nodes = self.nodes@;
        assert forall|q: Seq<char>| #[trigger] paths.contains_key(q) && q.len() > 0
            implies paths.contains_key(q.drop_last())
                && has_edge(nodes[paths[q.drop_last()] as int].edges@, q.last(), paths[q]) by {
            if q == q0 {
                assert(nodes[cur as int].edges@[nodes[cur as int].edges@.len() - 1] == (c, n));
            } else {
                let e = old_trie.nodes@[old_trie.paths@[q.drop_last()] as int].edges@;
                let k = choose|k: int| 0 <= k < e.len() && #[trigger] e[k] == (q.last(), paths[q]);
                assert(nodes[paths[q.drop_last()] as int].edges@[k] == (q.last(), paths[q]));
            }
        }
        assert forall|q: Seq<char>, k: int|
            paths.contains_key(q) && 0 <= k < nodes[paths[q] as int].edges@.len()
            implies #[trigger] nodes[paths[q] as int].edges@[k] == nodes[paths[q] as int].edges@[k]
                && paths.contains_key(q.push(nodes[paths[q] as int].edges@[k].0))
                && paths[q.push(nodes[paths[q] as int].edges@[k].0)] == nodes[paths[q] as int].edges@[k].1 by {
            if q == q0 {
            } else if paths[q] == cur {
                assert(q == p);
                if k < old_trie.nodes@[cur as int].edges@.len() {
                    assert(nodes[cur as int].edges@[k] == old_trie.nodes@[cur as int].edges@[k]);
                }
            } else {
                assert(nodes[paths[q] as int] == old_trie.nodes@[paths[q] as int]);
            }
        }
        assert forall|i: int, k1: int, k2: int|
            0 <= i < nodes.len() && 0 <= k1 < k2 < nodes[i].edges@.len()
            implies #[trigger] nodes[i].edges@[k1].0 != #[trigger] nodes[i].edges@[k2].0 by {
            if i == cur {
                assert(old_trie.nodes@[i].edges@[k1] == nodes[i].edges@[k1]);
                if k2 < old_trie.nodes@[i].edges@.len() {
                    assert(old_trie.nodes@[i].edges@[k2] == nodes[i].edges@[k2]);
                }
            } else if i < n {
                assert(nodes[i] == old_trie.nodes@[i]);
            }
        }
        assert forall|q: Seq<char>| #[trigger] paths.contains_key(q) && q.len() > 0 && q != q0
            implies nodes[paths[q] as int].value || nodes[paths[q] as int].edges@.len() > 0 by {
            if paths[q] == cur {
                assert(nodes[cur as int].edges@.len() > 0);
            } else {
                assert(nodes[paths[q] as int] == old_trie.nodes@[paths[q] as int]);
            }
        }
        assert forall|q: Seq<char>, r: Seq<char>|
            paths.contains_key(q) && paths.contains_key(r) && #[trigger] paths[q] == #[trigger] paths[r]
            implies q == r by {
            if q != q0 && r != q0 {
                assert(old_trie.paths@.contains_key(q));
            }
        }
        assert(self.words() =~= old_trie.words()) by {
            assert forall|q: Seq<char>| paths.contains_key(q) && q != q0
                implies #[trigger] nodes[paths[q] as int].value
                    == old_trie.nodes@[old_trie.paths@[q] as int].value by {
                if paths[q] != cur {
                    assert(nodes[paths[q] as int] == old_trie.nodes@[paths[q] as int]);
                }
            }
        }
    }

    /// Removing the edge labelled `c` below the node at `p`, where it leads to a
    /// leaf that marks no word, keeps the shape and the stored words; the loose
    /// node moves up to `p`.
    proof fn lemma_prune(&self, old_trie: Trie, p: Seq<char>, c: char, j: int)
        requires
            old_trie.shape(p.push(c)),
            old_trie.paths@.contains_key(p.push(c)),
            old_trie.nodes@[old_trie.paths@[p.push(c)] as int].is_bare(),
            p.push(c).drop_last() == p,
            0 <= j < old_trie.nodes@[old_trie.paths@[p] as int].edges@.len(),
            old_trie.nodes@[old_trie.paths@[p] as int].edges@[j].0 == c,
            self.nodes@.len() == old_trie.nodes@.len(),
            self.nodes@[old_trie.paths@[p] as int].value
                == old_trie.nodes@[old_trie.paths@[p] as int].value,
            self.nodes@[old_trie.paths@[p] as int].edges@
                == old_trie.nodes@[old_trie.paths@[p] as int].edges@.remove(j),
            forall|i: int| 0 <= i < self.nodes@.len() && i != old_trie.paths@[p]
                ==> self.nodes@[i] == old_trie.nodes@[i],
            self.paths@ == old_trie.paths@.remove(p.push(c)),
        ensures
            self.shape(p),
            self.words() == old_trie.words(),
    {
        let q0 = p.push(c);
        let paths = self.paths@;
        let nodes = self.nodes@;
        let opaths = old_trie.paths@;
        let onodes = old_trie.nodes@;
        let parent = opaths[p];
        let child = opaths[q0];
        let oe = onodes[parent as int].edges@;
        let ne = nodes[parent as int].edges@;
        assert(opaths.contains_key(p));
        assert(oe[j] == (c, child)) by {
            let k = choose|k: int| 0 <= k < oe.len() && #[trigger] oe[k] == (c, child);
            assert(oe[k].0 == c);
        }
        assert forall|q: Seq<char>| #[trigger] paths.contains_key(q) && q.len() > 0
            implies paths.contains_key(q.drop_last())
                && has_edge(nodes[paths[q.drop_last()] as int].edges@, q.last(), paths[q]) by {
            let e = onodes[opaths[q.drop_last()] as int].edges@;
            let k = choose|k: int| 0 <= k < e.len() && #[trigger] e[k] == (q.last(), opaths[q]);
            if q.drop_last() == q0 {
                assert(onodes[child as int].edges@.len() == 0);
            }
            if opaths[q.drop_last()] == parent {
                assert(q.drop_last() == p);
                if k == j {
                    assert(opaths[q] == child);
                }
                if k < j {
                    assert(ne[k] == e[k]);
                } else {
                    assert(ne[k - 1] == e[k]);
                }
            } else {
                assert(nodes[opaths[q.drop_last()] as int] == onodes[opaths[q.drop_last()] as int]);
            }
        }
        assert forall|q: Seq<char>, k: int|
            paths.contains_key(q) && 0 <= k < nodes[paths[q] as int].edges@.len()
            implies #[trigger] nodes[paths[q] as int].edges@[k] == nodes[paths[q] as int].edges@[k]
                && paths.contains_key(q.push(nodes[paths[q] as int].edges@[k].0))
                && paths[q.push(nodes[paths[q] as int].edges@[k].0)] == nodes[paths[q] as int].edges@[k].1 by {
            if paths[q] == parent {
                assert(q == p);
                let ok = if k < j { k } else { k + 1 };
                assert(ne[k] == oe[ok]);
                assert(oe[ok].0 != oe[j].0);
                assert(opaths.contains_key(q.push(oe[ok].0)));
                assert(q.push(oe[ok].0).last() != q0.last());
            } else {
                assert(nodes[paths[q] as int] == onodes[paths[q] as int]);
                let ch = nodes[paths[q] as int].edges@[k].0;
                assert(opaths.contains_key(q.push(ch)));
                if q.push(ch) == q0 {
                    assert(q.push(ch).drop_last() == q);
                }
            }
        }
        assert forall|i: int, k1: int, k2: int|
            0 <= i < nodes.len() && 0 <= k1 < k2 < nodes[i].edges@.len()
            implies #[trigger] nodes[i].edges@[k1].0 != #[trigger] nodes[i].edges@[k2].0 by {
            if i == parent {
                let o1 = if k1 < j { k1 } else { k1 + 1 };
                let o2 = if k2 < j { k2 } else { k2 + 1 };
                assert(ne[k1] == oe[o1]);
                assert(ne[k2] == oe[o2]);
            } else {
                assert(nodes[i] == onodes[i]);
            }
        }
        assert forall|q: Seq<char>| #[trigger] paths.contains_key(q) && q.len() > 0 && q != p
            implies nodes[paths[q] as int].value || nodes[paths[q] as int].edges@.len() > 0 by {
            assert(opaths.contains_key(q));
            if paths[q] != parent {
                assert(nodes[paths[q] as int] == onodes[paths[q] as int]);
            }
        }
        assert forall|q: Seq<char>, r: Seq<char>|
            paths.contains_key(q) && paths.contains_key(r) && #[trigger] paths[q] == #[trigger] paths[r]
            implies q == r by {
            assert(opaths.contains_key(q));
            assert(opaths.contains_key(r));
        }
        assert(paths.dom() =~= opaths.dom().remove(q0));
        assert(self.words() =~= old_trie.words()) by {
            assert forall|q: Seq<char>| paths.contains_key(q)
                implies #[trigger] nodes[paths[q] as int].value
                    == onodes[opaths[q] as int].value by {
                assert(opaths.contains_key(q));
                if paths[q] != parent {
                    assert(nodes[paths[q] as int] == onodes[paths[q] as int]);
                }
            }
        }
    }

    /// Index of the edge labelled `c` among `edges`, if there is one.
    fn find_edge(edges: &Vec<(char, usize)>, c: char) -> (r: Option<usize>)
        ensures
            match r {
                Some(k) => k < edges@.len() && edges@[k as int].0 == c,
                None => forall|k: int| 0 <= k < edges@.len() ==> edges@[k].0 != c,
            },
    {
        let mut k: usize = 0;
        while k < edges.len()
            invariant
                k <= edges@.len(),
                forall|j: int| 0 <= j < k ==> edges@[j].0 != c,
            decreases edges@.len() - k,
        {
            if edges[k].0 == c {
                return Some(k);
            }
            k = k + 1;
        }
        None
    }

    /// Follows the edges labelled `w` from the root: the node reached, or `None`
    /// where an edge is missing.
    fn walk(&self, w: &Vec<char>) -> (r: Option<usize>)
        requires
            self.wf(),
        ensures
            match r {
                Some(n) => self.paths@.contains_key(w@) && self.paths@[w@] == n,
                None => !self.paths@.contains_key(w@),
            },
    {
        let mut cur: usize = 0;
        let mut i: usize = 0;
        assert(w@.take(0) == Seq::<char>::empty());
        while i < w.len()
            invariant
                self.wf(),
                i <= w@.len(),
                self.paths@.contains_key(w@.take(i as int)),
                self.paths@[w@.take(i as int)] == cur,
            decreases w@.len() - i,
        {
            let c = w[i];
            let ghost p = w@.take(i as int);
            assert(w@.take(i + 1) == p.push(c));
            match Trie::find_edge(&self.nodes[cur].edges, c) {
                Some(k) => {
                    cur = self.nodes[cur].edges[k].1;
                },
                None => {
                    proof {
                        if self.paths@.contains_key(w@) {
                            self.lemma_prefix_in_tree(Seq::empty(), w@, i + 1);
                            assert(w@.take(i + 1).drop_last() == p);
                        }
                    }
                    return None;
                },
            }
            i = i + 1;
        }
        assert(w@.take(i as int) == w@);
        Some(cur)
    }

    /// An empty tree: a root that marks no word.
    pub fn new() -> (r: Trie)
        ensures
            r.wf(),
            r@ == Set::<Seq<char>>::empty(),
    {
        let mut nodes: Vec<TrieNode> = Vec::new();
        nodes.push(TrieNode::new());
        let r = Trie { nodes, size: 0, paths: Ghost(Map::empty().insert(Seq::empty(), 0)) };
        assert(r.paths@.dom() == set![Seq::<char>::empty()]);
        assert(r.words() == Set::<Seq<char>>::empty());
        r
    }

    /// Stores `item`. Storing a word that is already present changes nothing.
    pub fn insert(&mut self, item: &str)
        requires
            old(self).wf(),
        ensures
            final(self).wf(),
            final(self)@ == old(self)@.insert(item@),
    {
        let w = chars_of(item);
        let ghost words0 = self.words();
        let mut cur: usize = 0;
        let mut i: usize = 0;
        assert(w@.take(0) == Seq::<char>::empty());
        while i < w.len()
            invariant
                self.shape(w@.take(i as int)),
                self.words() == words0,
                self.size == words0.len(),
                i <= w@.len(),
                self.paths@.contains_key(w@.take(i as int)),
                self.paths@[w@.take(i as int)] == cur,
            decreases w@.len() - i,
        {
            let c = w[i];
            let ghost p = w@.take(i as int);
            assert(w@.take(i + 1) == p.push(c));
            assert(p.push(c).drop_last() == p);
            match Trie::find_edge(&self.nodes[cur].edges, c) {
                Some(k) => {
                    cur = self.nodes[cur].edges[k].1;
                },
                None => {
                    let n = self.nodes.len();
                    let ghost old_trie = *self;
                    proof {
                        if self.paths@.contains_key(p.push(c)) {
                            let k = choose|k: int|
                                0 <= k < self.nodes@[cur as int].edges@.len()
                                && #[trigger] self.nodes@[cur as int].edges@[k]
                                == (c, self.paths@[p.push(c)]);
                            assert(self.nodes@[cur as int].edges@[k].0 == c);
                        }
                    }
                    self.nodes.push(TrieNode::new());
                    self.nodes[cur].edges.push((c, n));
                    self.paths = Ghost(self.paths@.insert(p.push(c), n));
                    proof {
                        self.lemma_grow(old_trie, p, c, n);
                    }
                    cur = n;
                },
            }
            i = i + 1;
        }
        assert(w@.take(i as int) == w@);
        if !self.nodes[cur].value {
            let ghost old_trie = *self;
            proof {
                let dom = self.paths@.dom();
                dom.lemma_len_filter(|q: Seq<char>| self.nodes@[self.paths@[q] as int].value);
                vstd::set_lib::lemma_len_subset(words0.insert(w@), dom);
            }
            // Each stored word has a node of its own, so the count stays below
            // the arena's length and cannot overflow.
            let arena_len = self.nodes.len();
            assert(self.size < arena_len);
            self.nodes[cur].value = true;
            self.size = self.size + 1;
            proof {
                assert(self.words() =~= words0.insert(w@));
            }
        } else {
            assert(words0.insert(w@) =~= words0);
        }
    }

    /// Removes `item` if it is stored; otherwise changes nothing. After the
    /// word's mark is cleared, the nodes that no longer lead to any word are
    /// pruned from the end of `item` upward. Pruning stops for good at the first
    /// node that still marks a word or still has an edge, since every node above
    /// it lies on the path of another word.
    pub fn delete(&mut self, item: &str)
        requires
            old(self).wf(),
        ensures
            final(self).wf(),
            final(self)@ == old(self)@.remove(item@),
    {
        let w = chars_of(item);
        let ghost words0 = self.words();
        let mut trail: Vec<usize> = Vec::new();
        trail.push(0);
        let mut cur: usize = 0;
        let mut i: usize = 0;
        assert(w@.take(0) == Seq::<char>::empty());
        while i < w.len()
            invariant
                self.wf(),
                *self == *old(self),
                self.words() == words0,
                w@ == item@,
                i <= w@.len(),
                trail@.len() == i + 1,
                forall|j: int| 0 <= j <= i ==> self.paths@.contains_key(#[trigger] w@.take(j))
                    && self.paths@[w@.take(j)] == trail@[j],
                cur == trail@[i as int],
            decreases w@.len() - i,
        {
            let c = w[i];
            let ghost p = w@.take(i as int);
            assert(w@.take(i + 1) == p.push(c));
            assert(p.push(c).drop_last() == p);
            match Trie::find_edge(&self.nodes[cur].edges, c) {
                Some(k) => {
                    cur = self.nodes[cur].edges[k].1;
                    trail.push(cur);
                },
                None => {
                    proof {
                        assert(self.paths@[p] == cur);
                        if self.paths@.contains_key(w@) {
                            self.lemma_prefix_in_tree(Seq::empty(), w@, i + 1);
                            let e = self.nodes@[cur as int].edges@;
                            let k = choose|k: int| 0 <= k < e.len()
                                && #[trigger] e[k] == (c, self.paths@[p.push(c)]);
                            assert(e[k].0 == c);
                        }
                        assert(!words0.contains(w@));
                        assert(words0.remove(w@) =~= words0);
                    }
                    return;
                },
            }
            i = i + 1;
        }
        assert(w@.take(i as int) == w@);
        if !self.nodes[cur].value {
            assert(words0.remove(w@) =~= words0);
            return;
        }
        proof {
            let dom = self.paths@.dom();
            dom.lemma_len_filter(|q: Seq<char>| self.nodes@[self.paths@[q] as int].value);
            assert(words0.contains(w@));
            assert(words0.remove(w@).len() + 1 == words0.len());
        }
        self.nodes[cur].value = false;
        self.size = self.size - 1;
        assert(self.words() =~= words0.remove(w@));
        let mut k: usize = w.len();
        while k > 0
            invariant
                self.shape(w@.take(k as int)),
                self.words() == words0.remove(w@),
                self.size == self.words().len(),
                k <= w@.len(),
                trail@.len() == w@.len() + 1,
                forall|j: int| 0 <= j <= k ==> self.paths@.contains_key(#[trigger] w@.take(j))
                    && self.paths@[w@.take(j)] == trail@[j],
            ensures
                k == 0 || self.nodes@[trail@[k as int] as int].value
                    || self.nodes@[trail@[k as int] as int].edges@.len() > 0,
            decreases k,
        {
            let node = trail[k];
            if self.nodes[node].value || self.nodes[node].edges.len() > 0 {
                break;
            }
            let parent = trail[k - 1];
            let c = w[k - 1];
            let ghost p = w@.take(k - 1);
            assert(w@.take(k as int) == p.push(c));
            assert(p.push(c).drop_last() == p);
            match Trie::find_edge(&self.nodes[parent].edges, c) {
                Some(j) => {
                    let ghost old_trie = *self;
                    self.nodes[parent].edges.remove(j);
                    self.paths = Ghost(self.paths@.remove(p.push(c)));
                    proof {
                        self.lemma_prune(old_trie, p, c, j as int);
                    }
                },
                None => {
                    proof {
                        let e = self.nodes@[parent as int].edges@;
                        let j = choose|j: int| 0 <= j < e.len() && #[trigger] e[j] == (c, node);
                        assert(e[j].0 == c);
                    }
                    break;
                },
            }
            k = k - 1;
        }
        proof {
            let loose = w@.take(k as int);
            let paths = self.paths@;
            let nodes = self.nodes@;
            assert forall|q: Seq<char>| #[trigger] paths.contains_key(q) && q.len() > 0
                implies nodes[paths[q] as int].value || nodes[paths[q] as int].edges@.len() > 0 by {
                if q == loose {
                    assert(paths[q] == trail@[k as int]);
                }
            }
        }
    }

    /// The number of stored words.
    pub fn size(&self) -> (r: usize)
        requires
            self.wf(),
        ensures
            r == self@.len(),
    {
        self.size
    }

    /// Whether `item` is stored; the empty word always counts as present.
    pub fn contains(&self, item: &str) -> (r: bool)
        requires
            self.wf(),
        ensures
            r == reported(self@, item@),
    {
        let w = chars_of(item);
        if w.len() == 0 {
            return true;
        }
        match self.walk(&w) {
            Some(n) => self.nodes[n].value,
            None => false,
        }
    }
}

/// Adds to `anagrams` every stored word that extends `curr`, the path to
/// `node`, by characters that `budget` can pay for. Each descent spends one
/// character of `budget` and appends it to `curr`; both are restored on the
/// way back.
fn find_all_anagrams_helper(
    trie: &Trie,
    node: usize,
    curr: &mut String,
    budget: &mut Vec<char>,
    anagrams: &mut WordSet,
)
    requires
        trie.wf(),
        trie.paths@.contains_key(old(curr)@),
        trie.paths@[old(curr)@] == node,
    ensures
        final(curr)@ == old(curr)@,
        final(budget)@ == old(budget)@,
        final(anagrams)@ == old(anagrams)@ + extensions(trie@, old(curr)@, old(budget)@),
    decreases old(budget)@.len(),
{
    let ghost p = curr@;
    let ghost b = budget@;
    let ghost d = trie@;
    let ghost a0 = anagrams@;
    let ghost here = if trie.nodes@[node as int].value {
        set![p]
    } else {
        Set::<Seq<char>>::empty()
    };
    if trie.nodes[node].value {
        anagrams.insert(curr.as_str());
    }
    assert(anagrams@ =~= a0 + here);
    let ghost mut firsts: Set<char> = Set::empty();
    let mut k: usize = 0;
    assert(extensions_through(d, p, b, firsts) =~= Set::<Seq<char>>::empty());
    while k < trie.nodes[node].edges.len()
        invariant
            trie.wf(),
            trie.paths@.contains_key(p),
            trie.paths@[p] == node,
            d == trie@,
            curr@ == p,
            budget@ == b,
            b == old(budget)@,
            k <= trie.nodes@[node as int].edges@.len(),
            forall|ch: char| firsts.contains(ch) <==> exists|j: int|
                0 <= j < k && #[trigger] trie.nodes@[node as int].edges@[j].0 == ch,
            anagrams@ == a0 + here + extensions_through(d, p, b, firsts),
        decreases trie.nodes@[node as int].edges@.len() - k,
    {
        let c = trie.nodes[node].edges[k].0;
        let child = trie.nodes[node].edges[k].1;
        let ghost before = anagrams@;
        match find_char(budget, c) {
            Some(t) => {
                budget.remove(t);
                push_char(curr, c);
                find_all_anagrams_helper(trie, child, curr, budget, anagrams);
                pop_char(curr);
                budget.insert(t, c);
                proof {
                    lemma_extensions_step(d, p, c, b, t as int);
                    assert(b.remove(t as int).insert(t as int, c) =~= b);
                    assert(p.push(c).drop_last() =~= p);
                }
            },
            None => {
                proof {
                    lemma_extensions_missing(d, p, c, b);
                }
            },
        }
        proof {
            assert(anagrams@ == before + extensions_through(d, p, b, set![c]));
            assert(extensions_through(d, p, b, firsts) + extensions_through(d, p, b, set![c])
                =~= extensions_through(d, p, b, firsts.insert(c)));
            firsts = firsts.insert(c);
            assert(trie.nodes@[node as int].edges@[k as int].0 == c);
        }
        k = k + 1;
    }
    proof {
        let e = trie.nodes@[node as int].edges@;
        assert forall|x: Seq<char>| #[trigger] extensions(d, p, b).contains(x)
            implies (here + extensions_through(d, p, b, firsts)).contains(x) by {
            if x.len() == p.len() {
                assert(x =~= p);
            } else {
                trie.lemma_prefix_in_tree(Seq::empty(), x, p.len() + 1 as int);
                let q = x.take(p.len() + 1 as int);
                assert(q.drop_last() =~= p);
                let j = choose|j: int| 0 <= j < e.len() && #[trigger] e[j] == (q.last(), trie.paths@[q]);
                assert(e[j].0 == x[p.len() as int]);
            }
        }
        if trie.nodes@[node as int].value {
            assert(p.skip(p.len() as int) =~= Seq::<char>::empty());
            lemma_empty_fits(b);
            assert(p.is_prefix_of(p));
        }
        assert(here + extensions_through(d, p, b, firsts) =~= extensions(d, p, b));
    }
}

impl AnagramSolver for Trie {
    open spec fn dictionary(&self) -> Set<Seq<char>> {
        self@
    }

    open spec fn ready(&self) -> bool {
        self.wf()
    }

    fn find_all_anagrams(&self, ch: &str) -> (r: WordSet) {
        let mut curr = String::new();
        let mut anagrams = WordSet::new();
        let mut budget = chars_of(ch);
        assert(self.paths@[curr@] == 0);
        find_all_anagrams_helper(self, 0, &mut curr, &mut budget, &mut anagrams);
        proof {
            lemma_anagrams_extend_empty(self@, ch@);
            assert(anagrams@ =~= subset_anagrams(self@, ch@));
        }
        anagrams
    }

    fn add_dictionary(&mut self, dictionary: &Vec<String>) {
        let ghost start = self@;
        let mut i: usize = 0;
        while i < dictionary.len()
            invariant
                self.wf(),
                i <= dictionary@.len(),
                self@ == start + views_of(dictionary@.take(i as int)).to_set(),
            decreases dictionary@.len() - i,
        {
            self.insert(dictionary[i].as_str());
            proof {
                assert(dictionary@.take(i + 1) =~= dictionary@.take(i as int).push(dictionary@[i as int]));
                lemma_views_push(dictionary@.take(i as int), dictionary@[i as int]);
            }
            i = i + 1;
        }
        assert(dictionary@.take(i as int) =~= dictionary@);
    }
}

} // verus!
