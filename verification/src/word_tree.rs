//! The dictionary trie: an arena of letter nodes, one root per first letter,
//! built by inserting words and read back by listing them.

use vstd::prelude::*;
use vstd::std_specs::iter::IteratorSpec;
use std::collections::HashMap;
use crate::symbol::append_char;

verus! {

/// A single node in a word tree, identifying a single traversible letter.
#[derive(Debug, Clone)]
struct WordTreeNode {
    /// The ID of this node (index in nodes array)
    id: usize,
    /// The letter contained in this node
    val: u8,
    /// Whether this node terminates a valid word
    terminus: bool,
    /// A map of the next nodes, identified by their contained value
    next: HashMap<u8, usize>,
}

/// A tree of valid dictionary words.
#[derive(Debug, Clone)]
pub struct WordTree {
    /// The node IDs of each initial letter
    head_ids: HashMap<u8, usize>,
    /// All the nodes in the tree, stored flat
    nodes: Vec<WordTreeNode>,
}

/// The set `words` after `word` was inserted: unchanged for the empty word,
/// which a trie cannot hold.
pub open spec fn inserted(words: Set<Seq<u8>>, word: Seq<u8>) -> Set<Seq<u8>> {
    if word.len() == 0 {
        words
    } else {
        words.insert(word)
    }
}

/// The set `words` after the words of `batch` were inserted one by one, in
/// their order.
pub open spec fn inserted_all(words: Set<Seq<u8>>, batch: Seq<Seq<u8>>) -> Set<Seq<u8>>
    decreases batch.len(),
{
    if batch.len() == 0 {
        words
    } else {
        inserted(inserted_all(words, batch.drop_last()), batch.last())
    }
}

/// The words of a list, each as a sequence of symbols.
pub open spec fn word_seqs(words: Seq<Vec<u8>>) -> Seq<Seq<u8>> {
    words.map_values(|word: Vec<u8>| word@)
}

/// Whether one of the first `n` entries is filed under `sym`.
spec fn filed_before(entries: Seq<(u8, usize)>, n: int, sym: u8) -> bool {
    exists|t: int| 0 <= t < n && (#[trigger] entries[t]).0 == sym
}

/// The entries of a symbol map, each once, in the order in which the map
/// hands them out.
fn entries_of(map: &HashMap<u8, usize>) -> (entries: Vec<(u8, usize)>)
    ensures
        forall|i: int|
            0 <= i < entries@.len() ==> map@.contains_key((#[trigger] entries@[i]).0)
                && map@[entries@[i].0] == entries@[i].1,
        forall|sym: u8| map@.contains_key(sym) ==> filed_before(entries@, entries@.len() as int, sym),
        forall|i: int, j: int|
            0 <= i < j < entries@.len() ==> (#[trigger] entries@[i]).0 != (#[trigger] entries@[j]).0,
{
    let mut entries: Vec<(u8, usize)> = Vec::new();
    let it = map.iter();
    let ghost pairs = it.remaining();
    assert(pairs.no_duplicates());
    for pair in iter: it
        invariant
            pairs == iter.seq(),
            entries@.len() == iter.index(),
            forall|i: int|
                0 <= i < entries@.len() ==> #[trigger] entries@[i] == (*pairs[i].0, *pairs[i].1),
    {
        let (sym, id) = pair;
        entries.push((*sym, *id));
    }
    proof {
        assert forall|sym: u8| map@.contains_key(sym) implies filed_before(
            entries@,
            entries@.len() as int,
            sym,
        ) by {
            assert(pairs.contains((&sym, &map@[sym])));
            let t = choose|t: int| 0 <= t < pairs.len() && pairs[t] == (&sym, &map@[sym]);
            assert(entries@[t].0 == sym);
        }
        assert forall|i: int, j: int| 0 <= i < j < entries@.len() implies (#[trigger] entries@[i]).0
            != (#[trigger] entries@[j]).0 by {
            assert(pairs[i] != pairs[j]);
            assert(map@.contains_key(*pairs[i].0) && map@[*pairs[i].0] == *pairs[i].1);
            assert(map@.contains_key(*pairs[j].0) && map@[*pairs[j].0] == *pairs[j].1);
            assert(entries@[i] == (*pairs[i].0, *pairs[i].1));
            assert(entries@[j] == (*pairs[j].0, *pairs[j].1));
        }
    }
    entries
}

impl View for WordTree {
    type V = Set<Seq<u8>>;

    /// The set of complete words that the trie holds.
    open spec fn view(&self) -> Set<Seq<u8>> {
        Set::new(|word: Seq<u8>| self.holds(word))
    }
}

impl WordTree {
    /// The number of nodes in the arena.
    pub closed spec fn node_count(&self) -> nat {
        self.nodes@.len()
    }

    /// The id of the node reached by following the symbols of `word` from
    /// the root of its first symbol, if the trie has that path.
    pub closed spec fn node_of(&self, word: Seq<u8>) -> Option<usize>
        decreases word.len(),
    {
        if word.len() == 0 {
            None
        } else if word.len() == 1 {
            self.head_ids@.get(word[0])
        } else {
            match self.node_of(word.drop_last()) {
                Some(parent) => self.nodes@[parent as int].next@.get(word.last()),
                None => None,
            }
        }
    }

    /// The id of the child of the node `id` for the symbol `sym`, if the
    /// node has one.
    pub closed spec fn child_of(&self, id: usize, sym: u8) -> Option<usize> {
        self.nodes@[id as int].next@.get(sym)
    }

    /// The symbol held by the node `id`.
    pub closed spec fn symbol_at(&self, id: usize) -> u8 {
        self.nodes@[id as int].val
    }

    /// How many of the first `n` non-empty prefixes of `word` have no path
    /// in the trie.
    pub open spec fn missing_prefixes(&self, word: Seq<u8>, n: int) -> nat
        decreases n,
    {
        if n <= 0 {
            0
        } else {
            self.missing_prefixes(word, n - 1) + (if self.node_of(word.take(n)) is None {
                1nat
            } else {
                0nat
            })
        }
    }

    /// Whether the node with this id, if there is one, ends a complete word.
    pub closed spec fn ends_word(&self, id: usize) -> bool {
        id < self.nodes@.len() && self.nodes@[id as int].terminus
    }

    /// Whether `word` is stored as a complete word: its path exists and ends
    /// in a terminus node.
    pub open spec fn holds(&self, word: Seq<u8>) -> bool {
        match self.node_of(word) {
            Some(id) => self.ends_word(id),
            None => false,
        }
    }

    /// `child` is the root for the first symbol `sym`.
    spec fn is_head(&self, sym: u8, child: usize) -> bool {
        self.head_ids@.contains_key(sym) && self.head_ids@[sym] == child
    }

    /// `child` is the child of node `parent` for the symbol `sym`.
    spec fn is_edge(&self, parent: int, sym: u8, child: usize) -> bool {
        &&& 0 <= parent < self.nodes@.len()
        &&& self.nodes@[parent].next@.contains_key(sym)
        &&& self.nodes@[parent].next@[sym] == child
    }

    /// The arena is a forest: every node holds its own index, every root
    /// and child holds the symbol it is filed under, a child comes after
    /// its parent in the arena, and no node is reached in two ways.
    pub closed spec fn wf(&self) -> bool {
        &&& forall|i: int| 0 <= i < self.nodes@.len() ==> (#[trigger] self.nodes@[i]).id == i
        &&& forall|sym: u8, child: usize| #[trigger]
            self.is_head(sym, child) ==> child < self.nodes@.len() && self.nodes@[child as int].val
                == sym
        &&& forall|parent: int, sym: u8, child: usize| #[trigger]
            self.is_edge(parent, sym, child) ==> parent < child < self.nodes@.len()
                && self.nodes@[child as int].val == sym
        &&& forall|parent: int, sym: u8, child: usize, first: u8|
            !(#[trigger] self.is_edge(parent, sym, child) && #[trigger] self.is_head(first, child))
        &&& forall|parent: int, sym: u8, child: usize, other: int, other_sym: u8|
            #[trigger] self.is_edge(parent, sym, child) && #[trigger] self.is_edge(
                other,
                other_sym,
                child,
            ) ==> parent == other
    }

    /// A path is not empty and ends inside the arena, at a node that holds
    /// the path's last symbol.
    pub proof fn lemma_node_in_range(&self, word: Seq<u8>)
        requires
            self.wf(),
            self.node_of(word) is Some,
        ensures
            self.node_of(word)->0 < self.node_count(),
            word.len() >= 1,
            self.symbol_at(self.node_of(word)->0) == word.last(),
        decreases word.len(),
    {
        if word.len() == 1 {
            assert(self.is_head(word[0], self.node_of(word)->0));
        } else {
            self.lemma_node_in_range(word.drop_last());
            let parent = self.node_of(word.drop_last())->0;
            assert(self.is_edge(parent as int, word.last(), self.node_of(word)->0));
        }
    }

    /// A path extended by one symbol leads to the child, for that symbol, of
    /// the node that the path leads to.
    pub proof fn lemma_path_step(&self, word: Seq<u8>, sym: u8)
        requires
            word.len() >= 1,
        ensures
            self.node_of(word.push(sym)) == (match self.node_of(word) {
                Some(parent) => self.child_of(parent, sym),
                None => None,
            }),
    {
        assert(word.push(sym).drop_last() =~= word);
    }

    /// No node of a well-formed trie is reached by two different words.
    pub proof fn lemma_path_unique(&self, a: Seq<u8>, b: Seq<u8>)
        requires
            self.wf(),
            self.node_of(a) is Some,
            self.node_of(a) == self.node_of(b),
        ensures
            a == b,
        decreases a.len(),
    {
        let id = self.node_of(a)->0;
        self.lemma_node_in_range(a);
        self.lemma_node_in_range(b);
        if a.len() == 1 {
            assert(self.is_head(a[0], id));
            if b.len() > 1 {
                self.lemma_node_in_range(b.drop_last());
                assert(self.is_edge(self.node_of(b.drop_last())->0 as int, b.last(), id));
            }
            assert(a =~= b);
        } else {
            self.lemma_node_in_range(a.drop_last());
            let pa = self.node_of(a.drop_last())->0;
            assert(self.is_edge(pa as int, a.last(), id));
            if b.len() == 1 {
                assert(self.is_head(b[0], id));
            } else {
                self.lemma_node_in_range(b.drop_last());
                let pb = self.node_of(b.drop_last())->0;
                assert(self.is_edge(pb as int, b.last(), id));
                self.lemma_path_unique(a.drop_last(), b.drop_last());
                assert(a =~= a.drop_last().push(a.last()));
                assert(b =~= b.drop_last().push(b.last()));
            }
        }
    }

    /// Every non-empty prefix of a path is a path.
    pub proof fn lemma_prefix_is_path(&self, word: Seq<u8>, n: int)
        requires
            self.node_of(word) is Some,
            1 <= n <= word.len(),
        ensures
            self.node_of(word.take(n)) is Some,
        decreases word.len(),
    {
        if n == word.len() {
            assert(word.take(n) =~= word);
        } else {
            self.lemma_prefix_is_path(word.drop_last(), n);
            assert(word.drop_last().take(n) =~= word.take(n));
        }
    }

    /// A trie without roots has no path.
    proof fn lemma_empty_has_no_path(&self, word: Seq<u8>)
        requires
            self.head_ids@ == Map::<u8, usize>::empty(),
        ensures
            self.node_of(word) is None,
        decreases word.len(),
    {
        if word.len() >= 2 {
            self.lemma_empty_has_no_path(word.drop_last());
        }
    }

    /// `after` has the nodes and links of `self`; only terminus marks may
    /// differ.
    spec fn same_links(&self, after: &WordTree) -> bool {
        &&& after.head_ids@ == self.head_ids@
        &&& after.nodes@.len() == self.nodes@.len()
        &&& forall|i: int|
            0 <= i < self.nodes@.len() ==> {
                &&& (#[trigger] after.nodes@[i]).id == self.nodes@[i].id
                &&& after.nodes@[i].val == self.nodes@[i].val
                &&& after.nodes@[i].next@ == self.nodes@[i].next@
            }
    }

    /// `after` is `self` with one fresh, childless node appended.
    spec fn grown(&self, after: &WordTree, sym: u8, terminus: bool) -> bool {
        let fresh = self.nodes@.len() as int;
        &&& after.nodes@.len() == fresh + 1
        &&& after.nodes@[fresh].id == fresh
        &&& after.nodes@[fresh].val == sym
        &&& after.nodes@[fresh].terminus == terminus
        &&& after.nodes@[fresh].next@ == Map::<u8, usize>::empty()
    }

    /// `after` is `self` with a fresh node appended and filed as the root
    /// for `sym`.
    spec fn grown_by_head(&self, after: &WordTree, sym: u8, terminus: bool) -> bool {
        let fresh = self.nodes@.len() as int;
        &&& self.grown(after, sym, terminus)
        &&& after.head_ids@ == self.head_ids@.insert(sym, fresh as usize)
        &&& forall|i: int| 0 <= i < fresh ==> #[trigger] after.nodes@[i] == self.nodes@[i]
    }

    /// `after` is `self` with a fresh node appended and filed as the child
    /// of `parent` for `sym`.
    spec fn grown_by_child(&self, after: &WordTree, parent: int, sym: u8, terminus: bool) -> bool {
        let fresh = self.nodes@.len() as int;
        &&& self.grown(after, sym, terminus)
        &&& after.head_ids@ == self.head_ids@
        &&& forall|i: int|
            0 <= i < fresh && i != parent ==> #[trigger] after.nodes@[i] == self.nodes@[i]
        &&& after.nodes@[parent].id == self.nodes@[parent].id
        &&& after.nodes@[parent].val == self.nodes@[parent].val
        &&& after.nodes@[parent].terminus == self.nodes@[parent].terminus
        &&& after.nodes@[parent].next@ == self.nodes@[parent].next@.insert(sym, fresh as usize)
    }

    /// Marking a terminus moves no path.
    proof fn lemma_same_links_path(&self, after: &WordTree, word: Seq<u8>)
        requires
            self.wf(),
            self.same_links(after),
        ensures
            after.node_of(word) == self.node_of(word),
        decreases word.len(),
    {
        if word.len() >= 2 {
            self.lemma_same_links_path(after, word.drop_last());
            if self.node_of(word.drop_last()) is Some {
                self.lemma_node_in_range(word.drop_last());
            }
        }
    }

    /// Marking a terminus keeps the trie well formed.
    proof fn lemma_same_links_wf(&self, after: &WordTree)
        requires
            self.wf(),
            self.same_links(after),
        ensures
            after.wf(),
    {
        assert forall|sym: u8, child: usize| #[trigger] after.is_head(sym, child) implies child
            < after.nodes@.len() && after.nodes@[child as int].val == sym by {
            assert(self.is_head(sym, child));
        }
        assert forall|parent: int, sym: u8, child: usize| #[trigger]
            after.is_edge(parent, sym, child) implies parent < child < after.nodes@.len()
            && after.nodes@[child as int].val == sym by {
            assert(self.is_edge(parent, sym, child));
        }
        assert forall|parent: int, sym: u8, child: usize, first: u8|
            !(#[trigger] after.is_edge(parent, sym, child) && #[trigger] after.is_head(
                first,
                child,
            )) by {
            if after.is_edge(parent, sym, child) && after.is_head(first, child) {
                assert(self.is_edge(parent, sym, child));
                assert(self.is_head(first, child));
            }
        }
        assert forall|parent: int, sym: u8, child: usize, other: int, other_sym: u8|
            #[trigger] after.is_edge(parent, sym, child) && #[trigger] after.is_edge(
                other,
                other_sym,
                child,
            ) implies parent == other by {
            assert(self.is_edge(parent, sym, child));
            assert(self.is_edge(other, other_sym, child));
        }
    }

    /// A new root adds the one-symbol path to it and moves no other path.
    proof fn lemma_grown_by_head_path(
        &self,
        after: &WordTree,
        sym: u8,
        terminus: bool,
        word: Seq<u8>,
    )
        requires
            self.wf(),
            !self.head_ids@.contains_key(sym),
            self.grown_by_head(after, sym, terminus),
        ensures
            after.node_of(word) == (if self.node_of(word) is Some {
                self.node_of(word)
            } else if word =~= seq![sym] {
                Some(self.nodes@.len() as usize)
            } else {
                None
            }),
        decreases word.len(),
    {
        if word.len() >= 2 {
            let front = word.drop_last();
            self.lemma_grown_by_head_path(after, sym, terminus, front);
            if self.node_of(front) is Some {
                self.lemma_node_in_range(front);
            }
        }
    }

    /// A new root keeps the trie well formed.
    proof fn lemma_grown_by_head_wf(&self, after: &WordTree, sym: u8, terminus: bool)
        requires
            self.wf(),
            !self.head_ids@.contains_key(sym),
            self.grown_by_head(after, sym, terminus),
        ensures
            after.wf(),
    {
        let fresh = self.nodes@.len() as int;
        assert forall|first: u8, child: usize| #[trigger] after.is_head(first, child) implies child
            < after.nodes@.len() && after.nodes@[child as int].val == first by {
            if first != sym {
                assert(self.is_head(first, child));
            }
        }
        assert forall|parent: int, s: u8, child: usize| #[trigger]
            after.is_edge(parent, s, child) implies parent < child < after.nodes@.len()
            && after.nodes@[child as int].val == s by {
            assert(self.is_edge(parent, s, child));
        }
        assert forall|parent: int, s: u8, child: usize, first: u8|
            !(#[trigger] after.is_edge(parent, s, child) && #[trigger] after.is_head(
                first,
                child,
            )) by {
            if after.is_edge(parent, s, child) && after.is_head(first, child) {
                assert(self.is_edge(parent, s, child));
                if first != sym {
                    assert(self.is_head(first, child));
                }
            }
        }
        assert forall|parent: int, s: u8, child: usize, other: int, other_sym: u8|
            #[trigger] after.is_edge(parent, s, child) && #[trigger] after.is_edge(
                other,
                other_sym,
                child,
            ) implies parent == other by {
            assert(self.is_edge(parent, s, child));
            assert(self.is_edge(other, other_sym, child));
        }
    }

    /// A new child adds the path through its parent to it and moves no
    /// other path.
    proof fn lemma_grown_by_child_path(
        &self,
        after: &WordTree,
        parent: int,
        sym: u8,
        terminus: bool,
        word: Seq<u8>,
    )
        requires
            self.wf(),
            0 <= parent < self.nodes@.len(),
            !self.nodes@[parent].next@.contains_key(sym),
            self.grown_by_child(after, parent, sym, terminus),
        ensures
            after.node_of(word) == (if self.node_of(word) is Some {
                self.node_of(word)
            } else if word.len() >= 2 && self.node_of(word.drop_last()) == Some(parent as usize)
                && word.last() == sym {
                Some(self.nodes@.len() as usize)
            } else {
                None
            }),
        decreases word.len(),
    {
        if word.len() >= 2 {
            let front = word.drop_last();
            self.lemma_grown_by_child_path(after, parent, sym, terminus, front);
            if self.node_of(front) is Some {
                self.lemma_node_in_range(front);
            }
        }
    }

    /// A new child keeps the trie well formed.
    proof fn lemma_grown_by_child_wf(&self, after: &WordTree, parent: int, sym: u8, terminus: bool)
        requires
            self.wf(),
            0 <= parent < self.nodes@.len(),
            !self.nodes@[parent].next@.contains_key(sym),
            self.grown_by_child(after, parent, sym, terminus),
        ensures
            after.wf(),
    {
        let fresh = self.nodes@.len() as int;
        assert forall|i: int| 0 <= i < after.nodes@.len() implies (#[trigger] after.nodes@[i]).id
            == i by {
            if i < fresh && i != parent {
                assert(after.nodes@[i] == self.nodes@[i]);
            }
        }
        assert forall|first: u8, child: usize| #[trigger] after.is_head(first, child) implies child
            < after.nodes@.len() && after.nodes@[child as int].val == first by {
            assert(self.is_head(first, child));
        }
        assert forall|p: int, s: u8, child: usize| #[trigger] after.is_edge(p, s, child) implies p
            < child < after.nodes@.len() && after.nodes@[child as int].val == s by {
            if p == parent {
                if s != sym {
                    assert(self.is_edge(p, s, child));
                }
            } else if p != fresh {
                assert(after.nodes@[p] == self.nodes@[p]);
                assert(self.is_edge(p, s, child));
            }
        }
        assert forall|p: int, s: u8, child: usize, first: u8|
            !(#[trigger] after.is_edge(p, s, child) && #[trigger] after.is_head(first, child)) by {
            if after.is_edge(p, s, child) && after.is_head(first, child) {
                assert(self.is_head(first, child));
                assert(self.is_edge(p, s, child));
            }
        }
        assert forall|p: int, s: u8, child: usize, other: int, other_sym: u8|
            #[trigger] after.is_edge(p, s, child) && #[trigger] after.is_edge(
                other,
                other_sym,
                child,
            ) implies p == other by {
            if child != fresh {
                assert(self.is_edge(p, s, child));
                assert(self.is_edge(other, other_sym, child));
            } else {
                if p != parent && p != fresh {
                    assert(self.is_edge(p, s, child));
                }
                if other != parent && other != fresh {
                    assert(self.is_edge(other, other_sym, child));
                }
            }
        }
    }

    /// Add a new node to the tree, return its id
    fn add_node(&mut self, val: u8, terminus: bool) -> (id: usize)
        ensures
            id == old(self).nodes@.len(),
            old(self).grown(final(self), val, terminus),
            final(self).head_ids@ == old(self).head_ids@,
            forall|i: int|
                0 <= i < old(self).nodes@.len() ==> #[trigger] final(self).nodes@[i] == old(
                    self,
                ).nodes@[i],
    {
        let id = self.nodes.len();
        self.nodes.push(WordTreeNode { id, val, terminus, next: HashMap::new() });
        id
    }

    /// Ensure a head node for the given char exists, return its id
    fn ensure_head(&mut self, chr: u8, terminus: bool) -> (id: usize)
        requires
            old(self).wf(),
        ensures
            final(self).wf(),
            id < final(self).nodes@.len(),
            final(self).nodes@.len() == old(self).nodes@.len() + (if old(self).node_of(seq![chr])
                is None {
                1nat
            } else {
                0nat
            }),
            final(self).node_of(seq![chr]) == Some(id),
            forall|w: Seq<u8>|
                (#[trigger] final(self).node_of(w)) is Some ==> old(self).node_of(w) is Some || w
                    == seq![chr],
            forall|w: Seq<u8>|
                (#[trigger] old(self).node_of(w)) is Some ==> final(self).node_of(w) == old(
                    self,
                ).node_of(w),
            forall|w: Seq<u8>|
                #[trigger] final(self).holds(w) <==> old(self).holds(w) || (terminus
                    && final(self).node_of(w) == Some(id)),
    {
        let ghost before = *self;
        let existing = match self.head_ids.get(&chr) {
            Some(head_id) => Some(*head_id),
            None => None,
        };
        match existing {
            Some(head_id) => {
                proof {
                    assert(before.is_head(chr, head_id));
                }
                if terminus {
                    self.nodes[head_id].terminus = true;
                }
                proof {
                    assert(before.same_links(self));
                    before.lemma_same_links_wf(self);
                    assert forall|w: Seq<u8>| self.node_of(w) == #[trigger] before.node_of(w) by {
                        before.lemma_same_links_path(self, w);
                    }
                    assert forall|w: Seq<u8>| (#[trigger] self.node_of(w)) is Some implies before.node_of(
                        w,
                    ) is Some || w == seq![chr] by {
                        before.lemma_same_links_path(self, w);
                    }
                    assert forall|w: Seq<u8>| #[trigger]
                        self.holds(w) <==> before.holds(w) || (terminus && self.node_of(w) == Some(
                            head_id,
                        )) by {
                        before.lemma_same_links_path(self, w);
                        if before.node_of(w) is Some {
                            before.lemma_node_in_range(w);
                        }
                    }
                }
                head_id
            },
            None => {
                let id = self.add_node(chr, terminus);
                self.head_ids.insert(chr, id);
                proof {
                    assert(before.grown_by_head(self, chr, terminus));
                    before.lemma_grown_by_head_wf(self, chr, terminus);
                    before.lemma_grown_by_head_path(self, chr, terminus, seq![chr]);
                    assert forall|w: Seq<u8>| (#[trigger] before.node_of(w)) is Some implies self.node_of(
                        w,
                    ) == before.node_of(w) by {
                        before.lemma_grown_by_head_path(self, chr, terminus, w);
                    }
                    assert forall|w: Seq<u8>| (#[trigger] self.node_of(w)) is Some implies before.node_of(
                        w,
                    ) is Some || w == seq![chr] by {
                        before.lemma_grown_by_head_path(self, chr, terminus, w);
                    }
                    assert forall|w: Seq<u8>| #[trigger]
                        self.holds(w) <==> before.holds(w) || (terminus && self.node_of(w) == Some(
                            id,
                        )) by {
                        before.lemma_grown_by_head_path(self, chr, terminus, w);
                        if before.node_of(w) is Some {
                            before.lemma_node_in_range(w);
                        }
                    }
                }
                id
            },
        }
    }

    /// Ensure a child for the given node exists, return its id
    fn ensure_child(&mut self, node_id: usize, val: u8, terminus: bool) -> (child_id: usize)
        requires
            old(self).wf(),
            node_id < old(self).nodes@.len(),
        ensures
            final(self).wf(),
            child_id < final(self).nodes@.len(),
            old(self).nodes@.len() <= final(self).nodes@.len() <= old(self).nodes@.len() + 1,
            forall|w: Seq<u8>|
                (#[trigger] old(self).node_of(w)) is Some ==> final(self).node_of(w) == old(
                    self,
                ).node_of(w),
            forall|w: Seq<u8>|
                old(self).node_of(w) == Some(node_id) ==> #[trigger] final(self).node_of(
                    w.push(val),
                ) == Some(child_id) && (final(self).nodes@.len() == old(self).nodes@.len() <==> old(
                    self,
                ).node_of(w.push(val)) is Some),
            forall|w: Seq<u8>|
                (#[trigger] final(self).node_of(w)) is Some ==> old(self).node_of(w) is Some || (w.len()
                    >= 2 && old(self).node_of(w.drop_last()) == Some(node_id) && w.last() == val),
            forall|w: Seq<u8>|
                #[trigger] final(self).holds(w) <==> old(self).holds(w) || (terminus
                    && final(self).node_of(w) == Some(child_id)),
    {
        let ghost before = *self;
        let existing = match self.nodes[node_id].next.get(&val) {
            Some(child_id) => Some(*child_id),
            None => None,
        };
        match existing {
            Some(child_id) => {
                proof {
                    assert(before.is_edge(node_id as int, val, child_id));
                }
                if terminus {
                    self.nodes[child_id].terminus = true;
                }
                proof {
                    assert(before.same_links(self));
                    before.lemma_same_links_wf(self);
                    assert forall|w: Seq<u8>| self.node_of(w) == #[trigger] before.node_of(w) by {
                        before.lemma_same_links_path(self, w);
                    }
                    assert forall|w: Seq<u8>| before.node_of(w) == Some(node_id) implies #[trigger]
                        self.node_of(w.push(val)) == Some(child_id) && before.node_of(w.push(val))
                        is Some by {
                        before.lemma_same_links_path(self, w.push(val));
                        assert(w.push(val).drop_last() =~= w);
                        before.lemma_node_in_range(w);
                    }
                    assert forall|w: Seq<u8>| (#[trigger] self.node_of(w)) is Some implies before.node_of(
                        w,
                    ) is Some by {
                        before.lemma_same_links_path(self, w);
                    }
                    assert forall|w: Seq<u8>| #[trigger]
                        self.holds(w) <==> before.holds(w) || (terminus && self.node_of(w) == Some(
                            child_id,
                        )) by {
                        before.lemma_same_links_path(self, w);
                        if before.node_of(w) is Some {
                            before.lemma_node_in_range(w);
                        }
                    }
                }
                child_id
            },
            None => {
                let child_id = self.add_node(val, terminus);
                self.nodes[node_id].next.insert(val, child_id);
                proof {
                    assert(before.grown_by_child(self, node_id as int, val, terminus));
                    before.lemma_grown_by_child_wf(self, node_id as int, val, terminus);
                    assert forall|w: Seq<u8>| (#[trigger] before.node_of(w)) is Some implies self.node_of(
                        w,
                    ) == before.node_of(w) by {
                        before.lemma_grown_by_child_path(self, node_id as int, val, terminus, w);
                    }
                    assert forall|w: Seq<u8>| before.node_of(w) == Some(node_id) implies #[trigger]
                        self.node_of(w.push(val)) == Some(child_id) && before.node_of(w.push(val))
                        is None by {
                        before.lemma_grown_by_child_path(
                            self,
                            node_id as int,
                            val,
                            terminus,
                            w.push(val),
                        );
                        assert(w.push(val).drop_last() =~= w);
                        before.lemma_node_in_range(w);
                    }
                    assert forall|w: Seq<u8>| (#[trigger] self.node_of(w)) is Some implies before.node_of(
                        w,
                    ) is Some || (w.len() >= 2 && before.node_of(w.drop_last()) == Some(node_id)
                        && w.last() == val) by {
                        before.lemma_grown_by_child_path(self, node_id as int, val, terminus, w);
                    }
                    assert forall|w: Seq<u8>| #[trigger]
                        self.holds(w) <==> before.holds(w) || (terminus && self.node_of(w) == Some(
                            child_id,
                        )) by {
                        before.lemma_grown_by_child_path(self, node_id as int, val, terminus, w);
                        if before.node_of(w) is Some {
                            before.lemma_node_in_range(w);
                        }
                    }
                }
                child_id
            },
        }
    }

    /// Add a new word to the dictionary
    pub fn add_word(&mut self, word: &[u8])
        requires
            old(self).wf(),
        ensures
            final(self).wf(),
            final(self)@ == inserted(old(self)@, word@),
            final(self).node_count() == old(self).node_count() + old(self).missing_prefixes(
                word@,
                word@.len() as int,
            ),
            forall|w: Seq<u8>|
                (#[trigger] old(self).node_of(w)) is Some ==> final(self).node_of(w) == old(
                    self,
                ).node_of(w),
    {
        let ghost before = *self;
        if word.len() == 0 {
            return ;
        }
        let mut cur_id = self.ensure_head(word[0], word.len() == 1);
        let mut i: usize = 1;
        proof {
            assert(word@.take(1) =~= seq![word@[0]]);
            assert(before.missing_prefixes(word@, 0) == 0);
            assert forall|w: Seq<u8>| #[trigger]
                self.holds(w) <==> before.holds(w) || (1 == word@.len() && w == word@) by {
                if self.node_of(w) == Some(cur_id) {
                    self.lemma_path_unique(w, word@.take(1));
                }
                assert(word@.len() == 1 ==> word@.take(1) =~= word@);
            }
        }
        while i < word.len()
            invariant
                self.wf(),
                1 <= i <= word@.len(),
                cur_id < self.nodes@.len(),
                self.node_of(word@.take(i as int)) == Some(cur_id),
                self.nodes@.len() == before.nodes@.len() + before.missing_prefixes(word@, i as int),
                forall|w: Seq<u8>|
                    (#[trigger] before.node_of(w)) is Some ==> self.node_of(w) == before.node_of(w),
                forall|w: Seq<u8>|
                    (#[trigger] self.node_of(w)) is Some ==> before.node_of(w) is Some || (w.len() <= i
                        && w == word@.take(w.len() as int)),
                forall|w: Seq<u8>|
                    #[trigger] self.holds(w) <==> before.holds(w) || (i == word@.len() && w
                        == word@),
            decreases word@.len() - i,
        {
            let ghost mid = *self;
            let ghost last = i + 1 == word@.len();
            cur_id = self.ensure_child(cur_id, word[i], i == word.len() - 1);
            proof {
                let path = word@.take(i as int);
                let longer = word@.take(i + 1);
                assert(longer =~= path.push(word@[i as int]));
                assert(self.node_of(path.push(word@[i as int])) == Some(cur_id));
                if mid.node_of(longer) is Some && before.node_of(longer) is None {
                    assert(longer.len() == i + 1);
                }
                assert(mid.node_of(longer) is Some <==> before.node_of(longer) is Some);
                assert forall|w: Seq<u8>| (#[trigger] self.node_of(w)) is Some implies before.node_of(
                    w,
                ) is Some || (w.len() <= i + 1 && w == word@.take(w.len() as int)) by {
                    if mid.node_of(w) is None {
                        mid.lemma_path_unique(path, w.drop_last());
                        assert(w =~= w.drop_last().push(w.last()));
                        assert(w =~= longer);
                    }
                }
                assert forall|w: Seq<u8>| (#[trigger] before.node_of(w)) is Some implies self.node_of(
                    w,
                ) == before.node_of(w) by {
                    assert(mid.node_of(w) == before.node_of(w));
                }
                assert forall|w: Seq<u8>| #[trigger]
                    self.holds(w) <==> before.holds(w) || (i + 1 == word@.len() && w == word@) by {
                    assert(mid.holds(w) <==> before.holds(w));
                    if self.node_of(w) == Some(cur_id) {
                        self.lemma_path_unique(w, longer);
                    }
                    assert(last ==> longer =~= word@);
                }
            }
            i += 1;
        }
        proof {
            assert(self@ =~= inserted(before@, word@));
        }
    }

    /// The complete words whose path runs through the node `node_id`,
    /// which `prefix` followed by the node's own symbol leads to.
    fn list_words_inner(&self, node_id: usize, prefix: &[u8]) -> (out: Vec<Vec<u8>>)
        requires
            self.wf(),
            node_id < self.nodes@.len(),
            self.node_of(prefix@.push(self.nodes@[node_id as int].val)) == Some(node_id),
        ensures
            word_seqs(out@).no_duplicates(),
            forall|w: Seq<u8>|
                #[trigger] word_seqs(out@).contains(w) <==> self.holds(w) && prefix@.push(
                    self.nodes@[node_id as int].val,
                ).is_prefix_of(w),
        decreases self.nodes@.len() - node_id,
    {
        let node = &self.nodes[node_id];
        let new_prefix = append_char(prefix, node.val);
        let ghost path = new_prefix@;
        let ghost depth = path.len() as int;

        let mut out: Vec<Vec<u8>> = Vec::new();
        if node.terminus {
            out.push(new_prefix.clone());
            proof {
                assert(word_seqs(out@) =~= seq![path]);
                assert(word_seqs(out@)[0] == path);
            }
        } else {
            proof {
                assert(word_seqs(out@) =~= Seq::<Seq<u8>>::empty());
            }
        }
        let children = entries_of(&node.next);
        let mut j: usize = 0;
        proof {
            assert forall|w: Seq<u8>| #[trigger]
                word_seqs(out@).contains(w) <==> self.holds(w) && path.is_prefix_of(w) && (w.len()
                    == depth || filed_before(children@, 0, w[depth])) by {
                if path.is_prefix_of(w) && w.len() == depth {
                    assert(w =~= path);
                }
                assert(path.is_prefix_of(path));
            }
        }
        while j < children.len()
            invariant
                self.wf(),
                node_id < self.nodes@.len(),
                *node == self.nodes@[node_id as int],
                path == new_prefix@,
                depth == path.len(),
                self.node_of(path) == Some(node_id),
                j <= children@.len(),
                forall|i: int|
                    0 <= i < children@.len() ==> node.next@.contains_key((#[trigger] children@[i]).0)
                        && node.next@[children@[i].0] == children@[i].1,
                forall|a: int, b: int|
                    0 <= a < b < children@.len() ==> (#[trigger] children@[a]).0
                        != (#[trigger] children@[b]).0,
                word_seqs(out@).no_duplicates(),
                forall|w: Seq<u8>|
                    #[trigger] word_seqs(out@).contains(w) <==> self.holds(w) && path.is_prefix_of(w)
                        && (w.len() == depth || filed_before(children@, j as int, w[depth])),
            decreases children@.len() - j,
        {
            let (sym, child_id) = children[j];
            proof {
                assert(self.is_edge(node_id as int, sym, child_id));
                assert(path.push(sym).drop_last() =~= path);
            }
            let mut sub = self.list_words_inner(child_id, new_prefix.as_slice());
            let ghost before = word_seqs(out@);
            let ghost added = word_seqs(sub@);
            out.append(&mut sub);
            proof {
                assert(word_seqs(out@) =~= before + added);
                assert forall|w: Seq<u8>| #[trigger]
                    added.contains(w) <==> self.holds(w) && path.is_prefix_of(w) && w.len() > depth
                        && w[depth] == sym by {
                    if path.push(sym).is_prefix_of(w) {
                        assert(w.subrange(0, depth + 1)[depth] == sym);
                        assert(path =~= w.subrange(0, depth));
                    }
                    if path.is_prefix_of(w) && w.len() > depth && w[depth] == sym {
                        assert(path.push(sym) =~= w.subrange(0, depth + 1));
                    }
                }
                assert forall|w: Seq<u8>| before.contains(w) implies !added.contains(w) by {
                    if filed_before(children@, j as int, w[depth]) && w[depth] == sym {
                        let t = choose|t: int| 0 <= t < j && (#[trigger] children@[t]).0 == w[depth];
                        assert(children@[t].0 != children@[j as int].0);
                    }
                }
                assert forall|a: int, b: int|
                    0 <= a < before.len() && 0 <= b < added.len() implies before[a] != added[b] by {
                    assert(before.contains(before[a]));
                    assert(added.contains(added[b]));
                }
                vstd::seq_lib::lemma_no_dup_in_concat(before, added);
                assert forall|w: Seq<u8>| #[trigger]
                    word_seqs(out@).contains(w) <==> self.holds(w) && path.is_prefix_of(w) && (w.len()
                        == depth || filed_before(children@, j + 1, w[depth])) by {
                    vstd::seq_lib::lemma_seq_concat_contains_all_elements(before, added, w);
                    if filed_before(children@, j + 1, w[depth]) {
                        let t = choose|t: int|
                            0 <= t < j + 1 && (#[trigger] children@[t]).0 == w[depth];
                        if t < j {
                            assert(filed_before(children@, j as int, w[depth]));
                        }
                    }
                    if filed_before(children@, j as int, w[depth]) {
                        let t = choose|t: int| 0 <= t < j && (#[trigger] children@[t]).0 == w[depth];
                        assert(filed_before(children@, j + 1, w[depth]));
                    }
                    if w.len() > depth && w[depth] == sym {
                        assert(children@[j as int].0 == sym);
                        assert(filed_before(children@, j + 1, w[depth]));
                    }
                }
            }
            j += 1;
        }
        proof {
            assert forall|w: Seq<u8>| #[trigger]
                word_seqs(out@).contains(w) <==> self.holds(w) && path.is_prefix_of(w) by {
                if self.holds(w) && path.is_prefix_of(w) && w.len() > depth {
                    self.lemma_prefix_is_path(w, depth + 1);
                    assert(w.take(depth + 1).drop_last() =~= path);
                    assert(w.take(depth + 1).last() == w[depth]);
                    assert(node.next@.contains_key(w[depth]));
                }
            }
        }
        out
    }

    /// Get all words in the dictionary
    pub fn list_words(&self) -> (out: Vec<Vec<u8>>)
        requires
            self.wf(),
        ensures
            word_seqs(out@).no_duplicates(),
            word_seqs(out@).to_set() == self@,
    {
        let mut out: Vec<Vec<u8>> = Vec::new();
        let heads = entries_of(&self.head_ids);
        let empty: Vec<u8> = Vec::new();
        proof {
            assert(word_seqs(out@) =~= Seq::<Seq<u8>>::empty());
        }
        let mut j: usize = 0;
        while j < heads.len()
            invariant
                self.wf(),
                empty@ == Seq::<u8>::empty(),
                j <= heads@.len(),
                forall|i: int|
                    0 <= i < heads@.len() ==> self.head_ids@.contains_key((#[trigger] heads@[i]).0)
                        && self.head_ids@[heads@[i].0] == heads@[i].1,
                forall|a: int, b: int|
                    0 <= a < b < heads@.len() ==> (#[trigger] heads@[a]).0 != (#[trigger] heads@[b]).0,
                word_seqs(out@).no_duplicates(),
                forall|w: Seq<u8>|
                    #[trigger] word_seqs(out@).contains(w) <==> self.holds(w) && filed_before(
                        heads@,
                        j as int,
                        w[0],
                    ),
            decreases heads@.len() - j,
        {
            let (sym, head_id) = heads[j];
            proof {
                assert(self.is_head(sym, head_id));
                assert(empty@.push(sym) =~= seq![sym]);
            }
            let mut sub = self.list_words_inner(head_id, empty.as_slice());
            let ghost before = word_seqs(out@);
            let ghost added = word_seqs(sub@);
            out.append(&mut sub);
            proof {
                assert(word_seqs(out@) =~= before + added);
                assert forall|w: Seq<u8>| #[trigger]
                    added.contains(w) <==> self.holds(w) && w[0] == sym by {
                    if seq![sym].is_prefix_of(w) {
                        assert(w.subrange(0, 1)[0] == sym);
                    }
                    if self.holds(w) && w[0] == sym {
                        self.lemma_node_in_range(w);
                        assert(seq![sym] =~= w.subrange(0, 1));
                    }
                }
                assert forall|w: Seq<u8>| before.contains(w) implies !added.contains(w) by {
                    if filed_before(heads@, j as int, w[0]) && w[0] == sym {
                        let t = choose|t: int| 0 <= t < j && (#[trigger] heads@[t]).0 == w[0];
                        assert(heads@[t].0 != heads@[j as int].0);
                    }
                }
                assert forall|a: int, b: int|
                    0 <= a < before.len() && 0 <= b < added.len() implies before[a] != added[b] by {
                    assert(before.contains(before[a]));
                    assert(added.contains(added[b]));
                }
                vstd::seq_lib::lemma_no_dup_in_concat(before, added);
                assert forall|w: Seq<u8>| #[trigger]
                    word_seqs(out@).contains(w) <==> self.holds(w) && filed_before(
                        heads@,
                        j + 1,
                        w[0],
                    ) by {
                    vstd::seq_lib::lemma_seq_concat_contains_all_elements(before, added, w);
                    if filed_before(heads@, j + 1, w[0]) {
                        let t = choose|t: int| 0 <= t < j + 1 && (#[trigger] heads@[t]).0 == w[0];
                        if t < j {
                            assert(filed_before(heads@, j as int, w[0]));
                        }
                    }
                    if filed_before(heads@, j as int, w[0]) {
                        let t = choose|t: int| 0 <= t < j && (#[trigger] heads@[t]).0 == w[0];
                        assert(filed_before(heads@, j + 1, w[0]));
                    }
                    if w[0] == sym {
                        assert(heads@[j as int].0 == sym);
                        assert(filed_before(heads@, j + 1, w[0]));
                    }
                }
            }
            j += 1;
        }
        proof {
            assert forall|w: Seq<u8>| #[trigger] word_seqs(out@).contains(w) <==> self.holds(w) by {
                if self.holds(w) {
                    self.lemma_node_in_range(w);
                    self.lemma_prefix_is_path(w, 1);
                    assert(w.take(1) =~= seq![w[0]]);
                    assert(self.head_ids@.contains_key(w[0]));
                }
            }
            assert(word_seqs(out@).to_set() =~= self@);
        }
        out
    }

    /// Add each word of a list to the dictionary, in the list's order.
    pub fn add_words(&mut self, words: &[Vec<u8>])
        requires
            old(self).wf(),
        ensures
            final(self).wf(),
            final(self)@ == inserted_all(old(self)@, word_seqs(words@)),
            forall|w: Seq<u8>|
                (#[trigger] old(self).node_of(w)) is Some ==> final(self).node_of(w) == old(
                    self,
                ).node_of(w),
    {
        let ghost before = *self;
        let mut i: usize = 0;
        proof {
            assert(word_seqs(words@).take(0) =~= Seq::<Seq<u8>>::empty());
        }
        while i < words.len()
            invariant
                self.wf(),
                i <= words@.len(),
                self@ == inserted_all(before@, word_seqs(words@).take(i as int)),
                forall|w: Seq<u8>|
                    (#[trigger] before.node_of(w)) is Some ==> self.node_of(w) == before.node_of(w),
            decreases words@.len() - i,
        {
            let ghost mid = *self;
            self.add_word(words[i].as_slice());
            proof {
                let batch = word_seqs(words@).take(i + 1);
                assert(batch.drop_last() =~= word_seqs(words@).take(i as int));
                assert(batch.last() == words@[i as int]@);
                assert forall|w: Seq<u8>| (#[trigger] before.node_of(w)) is Some implies self.node_of(
                    w,
                ) == before.node_of(w) by {
                    assert(mid.node_of(w) == before.node_of(w));
                }
            }
            i += 1;
        }
        proof {
            assert(word_seqs(words@).take(words@.len() as int) =~= word_seqs(words@));
        }
    }

    /// The number of nodes in the arena; ids run from zero up to it.
    pub fn len(&self) -> (n: usize)
        ensures
            n == self.node_count(),
    {
        self.nodes.len()
    }

    /// The id of the root for the first symbol `sym`, if there is one.
    pub fn head_id(&self, sym: u8) -> (id: Option<usize>)
        requires
            self.wf(),
        ensures
            id == self.node_of(seq![sym]),
            id matches Some(head) ==> head < self.node_count() && self.symbol_at(head) == sym,
    {
        match self.head_ids.get(&sym) {
            Some(head) => {
                proof {
                    assert(self.is_head(sym, *head));
                }
                Some(*head)
            },
            None => None,
        }
    }

    /// The id of the child of `node_id` for the symbol `sym`, if there is
    /// one: the node that every path to `node_id`, extended by `sym`, leads to.
    pub fn child_id(&self, node_id: usize, sym: u8) -> (id: Option<usize>)
        requires
            self.wf(),
            node_id < self.node_count(),
        ensures
            id == self.child_of(node_id, sym),
            forall|w: Seq<u8>|
                self.node_of(w) == Some(node_id) ==> #[trigger] self.node_of(w.push(sym)) == id,
            id matches Some(child) ==> node_id < child < self.node_count() && self.symbol_at(child)
                == sym,
    {
        proof {
            assert forall|w: Seq<u8>| self.node_of(w) == Some(node_id) implies #[trigger]
                self.node_of(w.push(sym)) == self.nodes@[node_id as int].next@.get(sym) by {
                self.lemma_node_in_range(w);
                assert(w.push(sym).drop_last() =~= w);
            }
        }
        match self.nodes[node_id].next.get(&sym) {
            Some(child) => {
                proof {
                    assert(self.is_edge(node_id as int, sym, *child));
                }
                Some(*child)
            },
            None => None,
        }
    }

    /// The symbol held by the node `node_id`: the last symbol of every path
    /// to it.
    pub fn symbol(&self, node_id: usize) -> (sym: u8)
        requires
            self.wf(),
            node_id < self.node_count(),
        ensures
            sym == self.symbol_at(node_id),
            forall|w: Seq<u8>| #[trigger] self.node_of(w) == Some(node_id) ==> w.last() == sym,
    {
        proof {
            assert forall|w: Seq<u8>| #[trigger] self.node_of(w) == Some(node_id) implies w.last()
                == self.nodes@[node_id as int].val by {
                self.lemma_node_in_range(w);
            }
        }
        self.nodes[node_id].val
    }

    /// Whether the node `node_id` ends a complete word.
    pub fn is_terminus(&self, node_id: usize) -> (terminus: bool)
        requires
            node_id < self.node_count(),
        ensures
            terminus == self.ends_word(node_id),
    {
        self.nodes[node_id].terminus
    }

    /// Whether `word` is stored as a complete word.
    pub fn contains(&self, word: &[u8]) -> (found: bool)
        requires
            self.wf(),
        ensures
            found == self@.contains(word@),
    {
        if word.len() == 0 {
            return false;
        }
        let mut cur_id = match self.head_id(word[0]) {
            Some(id) => id,
            None => {
                proof {
                    assert(word@.take(1) =~= seq![word@[0]]);
                    if self.node_of(word@) is Some {
                        self.lemma_prefix_is_path(word@, 1);
                    }
                }
                return false;
            },
        };
        let mut i: usize = 1;
        proof {
            assert(word@.take(1) =~= seq![word@[0]]);
        }
        while i < word.len()
            invariant
                self.wf(),
                1 <= i <= word@.len(),
                cur_id < self.nodes@.len(),
                self.node_of(word@.take(i as int)) == Some(cur_id),
            decreases word@.len() - i,
        {
            proof {
                assert(word@.take(i + 1) =~= word@.take(i as int).push(word@[i as int]));
            }
            match self.child_id(cur_id, word[i]) {
                Some(id) => {
                    cur_id = id;
                },
                None => {
                    proof {
                        if self.node_of(word@) is Some {
                            self.lemma_prefix_is_path(word@, i + 1);
                        }
                    }
                    return false;
                },
            }
            i += 1;
        }
        proof {
            assert(word@.take(word@.len() as int) =~= word@);
        }
        self.is_terminus(cur_id)
    }
}

impl Default for WordTree {
    /// An empty trie.
    fn default() -> (tree: Self)
        ensures
            tree.wf(),
            tree@ == Set::<Seq<u8>>::empty(),
            tree.node_count() == 0,
    {
        let tree = WordTree { head_ids: HashMap::new(), nodes: Vec::new() };
        proof {
            assert forall|w: Seq<u8>| tree.node_of(w) is None by {
                tree.lemma_empty_has_no_path(w);
            }
            assert(tree@ =~= Set::<Seq<u8>>::empty());
        }
        tree
    }
}

/// Inserting a word that was just inserted changes nothing.
pub proof fn lemma_insert_twice(words: Set<Seq<u8>>, word: Seq<u8>)
    ensures
        inserted(inserted(words, word), word) == inserted(words, word),
{
    assert(inserted(inserted(words, word), word) =~= inserted(words, word));
}

/// Inserting a batch adds exactly its non-empty words, whatever their order
/// and however often each occurs.
pub proof fn lemma_inserted_all(words: Set<Seq<u8>>, batch: Seq<Seq<u8>>)
    ensures
        inserted_all(words, batch) == words.union(batch.to_set().remove(Seq::<u8>::empty())),
    decreases batch.len(),
{
    let empty = Seq::<u8>::empty();
    if batch.len() == 0 {
        assert(batch.to_set() =~= Set::<Seq<u8>>::empty());
        assert(inserted_all(words, batch) =~= words.union(batch.to_set().remove(empty)));
    } else {
        lemma_inserted_all(words, batch.drop_last());
        let front = batch.drop_last();
        assert forall|w: Seq<u8>|
            batch.to_set().contains(w) <==> front.to_set().contains(w) || w == batch.last() by {
            if batch.to_set().contains(w) {
                let i = choose|i: int| 0 <= i < batch.len() && batch[i] == w;
                if i < batch.len() - 1 {
                    assert(front[i] == w);
                }
            }
            if front.to_set().contains(w) {
                let i = choose|i: int| 0 <= i < front.len() && front[i] == w;
                assert(batch[i] == w);
            }
            if w == batch.last() {
                assert(batch[batch.len() - 1] == w);
            }
        }
        if batch.last().len() == 0 {
            assert(batch.last() =~= empty);
        }
        assert(inserted_all(words, batch) =~= words.union(batch.to_set().remove(empty)));
    }
}

/// Round trip: the words inserted into an empty trie, in any order, are
/// exactly the non-empty words of the batch.
pub proof fn lemma_round_trip(batch: Seq<Seq<u8>>)
    ensures
        inserted_all(Set::<Seq<u8>>::empty(), batch) == batch.to_set().remove(Seq::<u8>::empty()),
{
    lemma_inserted_all(Set::<Seq<u8>>::empty(), batch);
    assert(Set::<Seq<u8>>::empty().union(batch.to_set().remove(Seq::<u8>::empty()))
        =~= batch.to_set().remove(Seq::<u8>::empty()));
}

/// Two batches with the same words leave the same trie contents, in
/// whatever order either lists them.
pub proof fn lemma_insert_order_irrelevant(words: Set<Seq<u8>>, a: Seq<Seq<u8>>, b: Seq<Seq<u8>>)
    requires
        a.to_set() == b.to_set(),
    ensures
        inserted_all(words, a) == inserted_all(words, b),
{
    lemma_inserted_all(words, a);
    lemma_inserted_all(words, b);
}


} // verus!
