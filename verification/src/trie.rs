use vstd::prelude::*;

use crate::context::sort_pairs_desc;
use crate::context::sorted_desc;
use crate::types::WordId;
use crate::types::WordMetadata;
use vstd::string::StrSliceExecFns;
use vstd::string::StringSliceAdditionalSpecFns;

verus! {

/// One trie node: children indexed by input byte, an optional terminal
/// word, and the largest frequency of any word in this subtree.
pub struct Node {
    pub children: Vec<(u8, usize)>,
    pub word_id: Option<WordId>,
    pub max_freq_in_subtree: u64,
}

/// The larger of two frequencies.
pub open spec fn max64(a: u64, b: u64) -> u64 {
    if a >= b {
        a
    } else {
        b
    }
}

/// Child index stored for byte `b`, if any.
pub open spec fn child_in(children: Seq<(u8, usize)>, b: u8) -> Option<usize>
    decreases children.len(),
{
    if children.len() == 0 {
        None
    } else if children.last().0 == b {
        Some(children.last().1)
    } else {
        child_in(children.drop_last(), b)
    }
}

/// Structural well-formedness: the root exists, child links point forward
/// and in range (so the graph is acyclic), and child bytes are unique.
pub open spec fn nodes_wf(nodes: Seq<Node>) -> bool {
    &&& nodes.len() > 0
    &&& forall|n: int, j: int|
        0 <= n < nodes.len() && 0 <= j < nodes[n].children@.len() ==> n < #[trigger] nodes[n].children@[j].1 < nodes.len()
    &&& forall|n: int, i: int, j: int|
        0 <= n < nodes.len() && 0 <= i < j < nodes[n].children@.len() ==> (#[trigger] nodes[n].children@[i]).0 != (#[trigger] nodes[n].children@[j]).0
}

/// Word stored at the end of the byte path `key` from node `m`.
pub open spec fn lookup_at(nodes: Seq<Node>, m: int, key: Seq<u8>) -> Option<WordId> {
    match node_at(nodes, m, key) {
        Some(n) => nodes[n].word_id,
        None => None,
    }
}

/// Node reached from node `n` along the byte path `key`, if the whole
/// path exists.
pub open spec fn node_at(nodes: Seq<Node>, n: int, key: Seq<u8>) -> Option<int>
    decreases key.len(),
{
    if !(0 <= n < nodes.len()) {
        None
    } else if key.len() == 0 {
        Some(n)
    } else {
        match child_in(nodes[n].children@, key[0]) {
            Some(c) => node_at(nodes, c as int, key.skip(1)),
            None => None,
        }
    }
}

/// Frequency of the word ending at node `n`, zero when none does.
pub open spec fn terminal_freq(nodes: Seq<Node>, metas: Seq<WordMetadata>, n: int) -> u64 {
    match nodes[n].word_id {
        Some(id) => if 0 <= id < metas.len() {
            metas[id as int].frequency
        } else {
            0
        },
        None => 0,
    }
}

/// Largest stored subtree maximum among the children listed.
pub open spec fn children_max(children: Seq<(u8, usize)>, nodes: Seq<Node>) -> u64
    decreases children.len(),
{
    if children.len() == 0 {
        0
    } else {
        max64(
            children_max(children.drop_last(), nodes),
            if children.last().1 < nodes.len() {
                nodes[children.last().1 as int].max_freq_in_subtree
            } else {
                0
            },
        )
    }
}

/// The subtree-maximum equation at node `n`: the stored value equals the
/// larger of the terminal frequency and the children's stored maxima.
pub open spec fn max_ok_at(nodes: Seq<Node>, metas: Seq<WordMetadata>, n: int) -> bool {
    nodes[n].max_freq_in_subtree == max64(
        terminal_freq(nodes, metas, n),
        children_max(nodes[n].children@, nodes),
    )
}

/// `id` appears among the collected pairs.
pub open spec fn in_pairs(s: Seq<(WordId, u64)>, id: WordId) -> bool {
    exists|j: int| 0 <= j < s.len() && s[j].0 == id
}

/// `x` is at most every collected score.
pub open spec fn below_all(x: u64, s: Seq<(WordId, u64)>) -> bool {
    forall|j: int| 0 <= j < s.len() ==> x <= (#[trigger] s[j]).1
}

/// No word identifier appears twice.
pub open spec fn ids_distinct(s: Seq<(WordId, u64)>) -> bool {
    forall|a: int, b: int| 0 <= a < b < s.len() ==> (#[trigger] s[a]).0 != (#[trigger] s[b]).0
}

/// The stored children maximum dominates each linked child's stored
/// maximum.
proof fn lemma_children_max_ge(children: Seq<(u8, usize)>, nodes: Seq<Node>, j: int)
    requires
        0 <= j < children.len(),
        children[j].1 < nodes.len(),
    ensures
        children_max(children, nodes) >= nodes[children[j].1 as int].max_freq_in_subtree,
    decreases children.len(),
{
    if j < children.len() - 1 {
        lemma_children_max_ge(children.drop_last(), nodes, j);
        assert(children.drop_last()[j] == children[j]);
    }
}

/// Walking one key and then another equals walking their concatenation.
proof fn lemma_node_at_concat(nodes: Seq<Node>, n: int, k1: Seq<u8>, k2: Seq<u8>)
    ensures
        node_at(nodes, n, k1 + k2) == match node_at(nodes, n, k1) {
            Some(m) => node_at(nodes, m, k2),
            None => None,
        },
    decreases k1.len(),
{
    if !(0 <= n < nodes.len()) {
        if k1.len() == 0 {
            assert(k1 + k2 =~= k2);
        } else {
            assert((k1 + k2).len() > 0);
        }
    } else if k1.len() == 0 {
        assert(k1 + k2 =~= k2);
    } else {
        assert((k1 + k2)[0] == k1[0]);
        assert((k1 + k2).skip(1) =~= k1.skip(1) + k2);
        match child_in(nodes[n].children@, k1[0]) {
            Some(c) => {
                lemma_node_at_concat(nodes, c as int, k1.skip(1), k2);
            },
            None => {},
        }
    }
}

/// Under the subtree-maximum equation, the stored maximum at a node
/// dominates the terminal frequency of every node below it.
proof fn lemma_subtree_max_bound(nodes: Seq<Node>, metas: Seq<WordMetadata>, n: int, key: Seq<
    u8,
>)
    requires
        nodes_wf(nodes),
        forall|v: int| 0 <= v < nodes.len() ==> max_ok_at(nodes, metas, v),
        0 <= n < nodes.len(),
        node_at(nodes, n, key) matches Some(m),
    ensures
        node_at(nodes, n, key) matches Some(m) && terminal_freq(nodes, metas, m) <= nodes[
            n
        ].max_freq_in_subtree,
    decreases key.len(),
{
    if key.len() == 0 {
        assert(max_ok_at(nodes, metas, n));
    } else {
        match child_in(nodes[n].children@, key[0]) {
            Some(c) => {
                lemma_child_in_some(nodes[n].children@, key[0], c);
                let j = choose|j: int|
                    0 <= j < nodes[n].children@.len() && #[trigger] nodes[n].children@[j] == (
                    key[0],
                    c,
                );
                assert(n < nodes[n].children@[j].1 < nodes.len());
                lemma_subtree_max_bound(nodes, metas, c as int, key.skip(1));
                lemma_children_max_ge(nodes[n].children@, nodes, j);
                assert(max_ok_at(nodes, metas, n));
            },
            None => {
                assert(false);
            },
        }
    }
}

/// No two child links target the same node: every node has at most one
/// parent, as holds of any trie grown by insertion alone.
pub open spec fn single_parent(nodes: Seq<Node>) -> bool {
    forall|n1: int, j1: int, n2: int, j2: int|
        0 <= n1 < nodes.len() && 0 <= j1 < nodes[n1].children@.len() && 0 <= n2 < nodes.len()
            && 0 <= j2 < nodes[n2].children@.len() && (#[trigger] nodes[n1].children@[j1]).1 == (
        #[trigger] nodes[n2].children@[j2]).1 ==> n1 == n2 && j1 == j2
}

/// `children_max` reads only the stored maxima of the linked nodes.
proof fn lemma_children_max_frame(children: Seq<(u8, usize)>, nodes1: Seq<Node>, nodes2: Seq<
    Node,
>)
    requires
        forall|j: int|
            0 <= j < children.len() ==> (((#[trigger] children[j]).1 < nodes1.len() <==> children[j].1 < nodes2.len()) && (children[j].1 < nodes1.len()
                ==> nodes2[children[j].1 as int].max_freq_in_subtree == nodes1[
                children[j].1 as int
            ].max_freq_in_subtree)),
    ensures
        children_max(children, nodes2) == children_max(children, nodes1),
    decreases children.len(),
{
    if children.len() > 0 {
        assert forall|j: int| 0 <= j < children.drop_last().len() implies (((
        #[trigger] children.drop_last()[j]).1 < nodes1.len() <==> children.drop_last()[j].1
            < nodes2.len()) && (children.drop_last()[j].1 < nodes1.len() ==> nodes2[
            children.drop_last()[j].1 as int
        ].max_freq_in_subtree == nodes1[
            children.drop_last()[j].1 as int
        ].max_freq_in_subtree)) by {
            assert(children.drop_last()[j] == children[j]);
        }
        lemma_children_max_frame(children.drop_last(), nodes1, nodes2);
    }
}

/// Appending a child link folds its target's stored maximum in.
proof fn lemma_children_max_push(children: Seq<(u8, usize)>, b: u8, c: usize, nodes: Seq<Node>)
    ensures
        children_max(children.push((b, c)), nodes) == max64(
            children_max(children, nodes),
            if c < nodes.len() {
                nodes[c as int].max_freq_in_subtree
            } else {
                0
            },
        ),
{
    assert(children.push((b, c)).drop_last() =~= children);
}

/// Byte-prefix index over learned Roman variants, with subtree-maximum
/// frequencies for pruned top-k search; also owns the word metadata store.
pub struct Trie {
    pub nodes: Vec<Node>,
    pub metadata_store: Vec<WordMetadata>,
}

impl Trie {
    /// The word metadata store, indexed by `WordId`.
    pub open spec fn metas(&self) -> Seq<WordMetadata> {
        self.metadata_store@
    }

    /// Identifier of the word stored at the end of byte path `key`.
    pub open spec fn lookup_id(&self, key: Seq<u8>) -> Option<WordId> {
        lookup_at(self.nodes@, 0, key)
    }

    pub open spec fn wf(&self) -> bool {
        &&& nodes_wf(self.nodes@)
        &&& forall|n: int|
            0 <= n < self.nodes@.len() ==> (#[trigger] self.nodes@[n].word_id matches Some(id)
                ==> id < self.metas().len())
        &&& forall|i: int| 0 <= i < self.metas().len() ==> (#[trigger] self.metas()[i]).wf()
        &&& forall|i: int, j: int|
            0 <= i < j < self.metas().len() ==> self.metas()[i].devanagari@
                != self.metas()[j].devanagari@
    }

    /// Some key extending `prefix` maps to word `id`.
    pub open spec fn reachable_under(&self, prefix: Seq<u8>, id: WordId) -> bool {
        exists|k: Seq<u8>|
            k.len() >= prefix.len() && k.take(prefix.len() as int) == prefix && self.lookup_id(k)
                == Some(id)
    }

    /// A collected pair is a word under `pfx` paired with its current,
    /// positive frequency.
    pub open spec fn entry_ok(&self, p: (WordId, u64), pfx: Seq<u8>) -> bool {
        &&& p.0 < self.metas().len()
        &&& p.1 == self.metas()[p.0 as int].frequency
        &&& p.1 > 0
        &&& self.reachable_under(pfx, p.0)
    }

    /// Word `id` was either collected, or the collection holds `k`
    /// words each at least as frequent.
    pub open spec fn covered(&self, s: Seq<(WordId, u64)>, k: int, id: WordId) -> bool {
        in_pairs(s, id) || (s.len() == k && below_all(
            self.metas()[id as int].frequency,
            s,
        ))
    }

    /// The subtree-maximum equation holds at every node.
    pub open spec fn max_ok(&self) -> bool {
        forall|n: int| 0 <= n < self.nodes@.len() ==> max_ok_at(self.nodes@, self.metas(), n)
    }

    /// The subtree-maximum equation holds at every node that is not a
    /// terminal of word `id`: the state right after that word's
    /// frequency was bumped.
    pub open spec fn max_ok_except(&self, id: WordId) -> bool {
        forall|n: int|
            0 <= n < self.nodes@.len() && self.nodes@[n].word_id != Some(id) ==> max_ok_at(
                self.nodes@,
                self.metas(),
                n,
            )
    }

    /// Word `id` is terminal at no node other than the end of `key`.
    pub open spec fn only_terminal_at(&self, id: WordId, key: Seq<u8>) -> bool {
        forall|n: int|
            0 <= n < self.nodes@.len() && (#[trigger] self.nodes@[n]).word_id == Some(id)
                ==> node_at(self.nodes@, 0, key) == Some(n)
    }

    pub fn new() -> (r: Self)
        ensures
            r.wf(),
            r.max_ok(),
            single_parent(r.nodes@),
            r.metas() == Seq::<WordMetadata>::empty(),
            forall|k: Seq<u8>| r.lookup_id(k) == Option::<WordId>::None,
    {
        let mut nodes: Vec<Node> = Vec::new();
        nodes.push(Node { children: Vec::new(), word_id: None, max_freq_in_subtree: 0 });
        let r = Trie { nodes, metadata_store: Vec::new() };
        proof {
            assert forall|k: Seq<u8>| r.lookup_id(k) == Option::<WordId>::None by {
                if k.len() == 0 {
                    assert(node_at(r.nodes@, 0, k) == Some(0int));
                } else {
                    assert(child_in(r.nodes@[0].children@, k[0]) == Option::<usize>::None);
                }
            }
        }
        r
    }

    /// Number of words in the metadata store.
    pub fn metadata_len(&self) -> (r: usize)
        ensures
            r == self.metas().len(),
    {
        self.metadata_store.len()
    }

    /// Metadata of word `id`, if `id` is in range.
    pub fn metadata(&self, id: WordId) -> (r: Option<&WordMetadata>)
        ensures
            match r {
                Some(m) => id < self.metas().len() && *m == self.metas()[id as int],
                None => id >= self.metas().len(),
            },
    {
        if id < self.metadata_store.len() {
            Some(&self.metadata_store[id])
        } else {
            None
        }
    }

    /// Identifier of the word whose Devanagari form equals `devanagari`:
    /// the first match of a linear scan, or nothing.
    pub fn find_word_id_by_devanagari(&self, devanagari: &str) -> (r: Option<WordId>)
        ensures
            match r {
                Some(i) => i < self.metas().len() && self.metas()[i as int].devanagari@
                    == devanagari@ && forall|j: int|
                    0 <= j < i ==> self.metas()[j].devanagari@ != devanagari@,
                None => forall|j: int|
                    0 <= j < self.metas().len() ==> self.metas()[j].devanagari@ != devanagari@,
            },
    {
        let dev = devanagari.to_owned();
        let mut i: usize = 0;
        while i < self.metadata_store.len()
            invariant
                dev@ == devanagari@,
                i <= self.metas().len(),
                forall|j: int| 0 <= j < i ==> self.metas()[j].devanagari@ != devanagari@,
            decreases self.metas().len() - i,
        {
            if self.metadata_store[i].devanagari == dev {
                return Some(i);
            }
            i += 1;
        }
        None
    }

    /// Identifier for `devanagari`, creating a fresh entry with frequency
    /// zero and no variants when the word is new.
    pub fn get_or_create_metadata(&mut self, devanagari: &str) -> (r: WordId)
        requires
            old(self).wf(),
        ensures
            final(self).wf(),
            r < final(self).metas().len(),
            final(self).metas()[r as int].devanagari@ == devanagari@,
            final(self).nodes@ == old(self).nodes@,
            r == first_dev(old(self).metas(), devanagari@),
            if exists|j: int|
                0 <= j < old(self).metas().len() && old(self).metas()[j].devanagari@
                    == devanagari@ {
                final(self).metas() == old(self).metas()
            } else {
                final(self).metas() == old(self).metas().push(
                    final(self).metas()[r as int],
                ) && r == old(self).metas().len() && final(self).metas()[r as int].frequency == 0
                    && final(self).metas()[r as int].variants@.len() == 0
            },
    {
        match self.find_word_id_by_devanagari(devanagari) {
            Some(id) => {
                proof {
                    assert(exists|j: int|
                        0 <= j < self.metas().len() && self.metas()[j].devanagari@
                            == devanagari@);
                    lemma_first_dev_at(self.metas(), devanagari@, id as int);
                }
                id
            },
            None => {
                proof {
                    lemma_first_dev_at(self.metas(), devanagari@, self.metas().len() as int);
                }
                let id = self.metadata_store.len();
                let meta = WordMetadata {
                    devanagari: devanagari.to_owned(),
                    frequency: 0,
                    variants: Vec::new(),
                };
                self.metadata_store.push(meta);
                id
            },
        }
    }

    /// Adds one confirmation to word `id`; saturates at the largest
    /// representable count.
    pub fn increment_frequency(&mut self, id: WordId)
        requires
            old(self).wf(),
            id < old(self).metas().len(),
        ensures
            final(self).wf(),
            final(self).nodes@ == old(self).nodes@,
            final(self).metas().len() == old(self).metas().len(),
            final(self).metas()[id as int].devanagari == old(self).metas()[id as int].devanagari,
            final(self).metas()[id as int].variants == old(self).metas()[id as int].variants,
            final(self).metas()[id as int].frequency == crate::context::bump(
                old(self).metas()[id as int].frequency,
            ),
            forall|j: int|
                0 <= j < old(self).metas().len() && j != id ==> final(self).metas()[j] == old(
                    self,
                ).metas()[j],
    {
        let m = &mut self.metadata_store[id];
        if m.frequency < u64::MAX {
            m.frequency = m.frequency + 1;
        }
    }

    /// Records `roman` as a spelling of word `id`; reports whether the
    /// spelling was new.
    pub fn add_variant(&mut self, id: WordId, roman: &str) -> (r: bool)
        requires
            old(self).wf(),
            id < old(self).metas().len(),
        ensures
            final(self).wf(),
            final(self).nodes@ == old(self).nodes@,
            final(self).metas().len() == old(self).metas().len(),
            final(self).metas()[id as int].devanagari == old(self).metas()[id as int].devanagari,
            final(self).metas()[id as int].frequency == old(self).metas()[id as int].frequency,
            forall|j: int|
                0 <= j < old(self).metas().len() && j != id ==> final(self).metas()[j] == old(
                    self,
                ).metas()[j],
            r == !(exists|j: int|
                0 <= j < old(self).metas()[id as int].variants@.len() && old(self).metas()[
                    id as int
                ].variants@[j]@ == roman@),
            if r {
                final(self).metas()[id as int].variants@ == old(self).metas()[
                    id as int
                ].variants@.push(final(self).metas()[id as int].variants@.last())
                    && final(self).metas()[id as int].variants@.last()@ == roman@
            } else {
                final(self).metas()[id as int].variants == old(self).metas()[id as int].variants
            },
    {
        let rv = roman.to_owned();
        let mut i: usize = 0;
        let n = self.metadata_store[id].variants.len();
        while i < n
            invariant
                self == old(self),
                old(self).wf(),
                id < self.metas().len(),
                n == self.metas()[id as int].variants@.len(),
                rv@ == roman@,
                i <= n,
                forall|j: int| 0 <= j < i ==> self.metas()[id as int].variants@[j]@ != roman@,
            decreases n - i,
        {
            if self.metadata_store[id].variants[i] == rv {
                return false;
            }
            i += 1;
        }
        let m = &mut self.metadata_store[id];
        m.variants.push(rv);
        true
    }

    /// Child of node `n` for byte `b`.
    fn find_child(&self, n: usize, b: u8) -> (r: Option<usize>)
        requires
            self.wf(),
            n < self.nodes@.len(),
        ensures
            r == child_in(self.nodes@[n as int].children@, b),
            r matches Some(c) ==> n < c < self.nodes@.len(),
    {
        let children = &self.nodes[n].children;
        let mut i: usize = 0;
        while i < children.len()
            invariant
                self.wf(),
                n < self.nodes@.len(),
                children == &self.nodes@[n as int].children,
                i <= children@.len(),
                forall|j: int| 0 <= j < i ==> children@[j].0 != b,
            decreases children@.len() - i,
        {
            if children[i].0 == b {
                proof {
                    lemma_child_get(children@, i as int, b);
                }
                return Some(children[i].1);
            }
            i += 1;
        }
        proof {
            lemma_child_absent(children@, b);
        }
        None
    }

    /// Ensures the byte path of `key` exists, marks its end node as
    /// terminal for `word_id`, and refreshes the stored subtree maxima
    /// along the path, leaf first, stopping early when a stored value is
    /// already correct. The metadata store is untouched. When the
    /// subtree-maximum equation held everywhere but at terminals of
    /// `word_id` — the state right after that word's frequency was
    /// bumped — and `word_id` was terminal nowhere outside this key's
    /// path, the refresh restores the equation everywhere.
    #[verifier::rlimit(100)]
    pub fn insert(&mut self, key: &str, word_id: WordId, _frequency: u64)
        requires
            old(self).wf(),
            word_id < old(self).metas().len(),
        ensures
            final(self).wf(),
            final(self).metas() == old(self).metas(),
            final(self).lookup_id(key.spec_bytes()) == Some(word_id),
            node_at(old(self).nodes@, 0, key.spec_bytes()) is Some
                ==> final(self).nodes@.len() == old(self).nodes@.len(),
            old(self).lookup_id(key.spec_bytes()) == Some(word_id) && old(self).max_ok()
                ==> final(self).nodes@ == old(self).nodes@,
            old(self).max_ok_except(word_id) && old(self).only_terminal_at(
                word_id,
                key.spec_bytes(),
            ) && single_parent(old(self).nodes@) ==> final(self).max_ok(),
            single_parent(old(self).nodes@) ==> single_parent(final(self).nodes@),
            single_parent(old(self).nodes@) ==> forall|k2: Seq<u8>|
                k2 != key.spec_bytes() ==> final(self).lookup_id(k2) == old(self).lookup_id(k2),
    {
        let ghost sp = single_parent(old(self).nodes@);
        let ghost cond = old(self).max_ok_except(word_id) && old(self).only_terminal_at(
            word_id,
            key.spec_bytes(),
        ) && sp;
        let ghost dup = old(self).lookup_id(key.spec_bytes()) == Some(word_id) && old(
            self,
        ).max_ok();
        let bytes = key.as_bytes_vec();
        let ghost kb = key.spec_bytes();
        let mut node_idx: usize = 0;
        let mut path: Vec<usize> = Vec::new();
        path.push(0);
        let mut i: usize = 0;
        proof {
            assert(kb.take(0) =~= Seq::<u8>::empty());
        }
        while i < bytes.len()
            invariant
                self.wf(),
                self.metas() == old(self).metas(),
                word_id < self.metas().len(),
                bytes@ == kb,
                i <= kb.len(),
                node_idx < self.nodes@.len(),
                node_at(self.nodes@, 0, kb.take(i as int)) == Some(node_idx as int),
                forall|j: int| 0 <= j < path@.len() ==> path@[j] < self.nodes@.len(),
                path@.len() == i + 1,
                path@[i as int] == node_idx,
                path@[0] == 0,
                forall|j: int|
                    0 <= j < i ==> child_in(
                        self.nodes@[path@[j] as int].children@,
                        kb[j],
                    ) == Some(path@[j + 1]),
                forall|j: int| 0 <= j < i ==> #[trigger] path@[j] < path@[j + 1],
                self.nodes@.len() >= old(self).nodes@.len(),
                node_at(old(self).nodes@, 0, kb) is Some
                    ==> self.nodes@.len() == old(self).nodes@.len(),
                dup ==> self.nodes@ == old(self).nodes@,
                dup == (old(self).lookup_id(kb) == Some(word_id) && old(self).max_ok()),
                forall|n: int|
                    0 <= n < old(self).nodes@.len() ==> (#[trigger] self.nodes@[n]).word_id
                        == old(self).nodes@[n].word_id,
                forall|n: int|
                    old(self).nodes@.len() <= n < self.nodes@.len()
                        ==> (#[trigger] self.nodes@[n]).word_id matches None,
                node_at(old(self).nodes@, 0, kb) matches Some(m) ==> node_at(
                    self.nodes@,
                    0,
                    kb,
                ) == Some(m),
                forall|k2: Seq<u8>| #[trigger]
                    lookup_at(self.nodes@, 0, k2) == lookup_at(old(self).nodes@, 0, k2),
                sp ==> single_parent(self.nodes@),
                cond ==> forall|n: int|
                    0 <= n < self.nodes@.len() && (#[trigger] self.nodes@[n]).word_id != Some(
                        word_id,
                    ) ==> max_ok_at(self.nodes@, self.metas(), n),
            decreases kb.len() - i,
        {
            let b = bytes[i];
            let next: usize;
            match self.find_child(node_idx, b) {
                Some(c) => {
                    next = c;
                    proof {
                        lemma_node_at_snoc(self.nodes@, 0, kb.take(i as int), b);
                        assert(kb.take(i + 1) =~= kb.take(i as int).push(b));
                    }
                },
                None => {
                    proof {
                        // A missing child here means the old trie did
                        // not hold the whole key path either.
                        if dup {
                            assert(lookup_at(old(self).nodes@, 0, kb) == Some(word_id));
                            if node_at(old(self).nodes@, 0, kb) is None {
                                assert(lookup_at(old(self).nodes@, 0, kb) is None);
                                assert(false);
                            }
                            assert(node_at(old(self).nodes@, 0, kb) is Some);
                        }
                        if node_at(old(self).nodes@, 0, kb) is Some {
                            assert(node_at(self.nodes@, 0, kb) is Some);
                            assert(kb =~= kb.take(i as int) + kb.skip(i as int));
                            lemma_node_at_concat(
                                self.nodes@,
                                0,
                                kb.take(i as int),
                                kb.skip(i as int),
                            );
                            assert(kb.skip(i as int)[0] == kb[i as int]);
                            assert(node_at(
                                self.nodes@,
                                node_idx as int,
                                kb.skip(i as int),
                            ) matches None);
                            assert(false);
                        }
                    }
                    let new_idx = self.nodes.len();
                    let ghost pre1 = self.nodes@;
                    self.nodes.push(
                        Node { children: Vec::new(), word_id: None, max_freq_in_subtree: 0 },
                    );
                    proof {
                        assert(nodes_wf(self.nodes@));
                        lemma_node_at_frame(pre1, self.nodes@, 0, kb.take(i as int));
                        if node_at(old(self).nodes@, 0, kb) matches Some(m) {
                            lemma_node_at_frame(pre1, self.nodes@, 0, kb);
                        }
                        if sp {
                            assert forall|n1: int, j1: int, n2: int, j2: int|
                                0 <= n1 < self.nodes@.len() && 0 <= j1 < self.nodes@[n1].children@.len() && 0 <= n2 < self.nodes@.len() && 0 <= j2 < self.nodes@[n2].children@.len() && (#[trigger] self.nodes@[n1].children@[j1]).1 == (#[trigger] self.nodes@[n2].children@[j2]).1 implies n1 == n2 && j1 == j2 by {
                                assert(self.nodes@[n1].children == pre1[n1].children);
                                assert(self.nodes@[n2].children == pre1[n2].children);
                            }
                        }
                        if cond {
                            assert forall|n: int|
                                0 <= n < self.nodes@.len() && (#[trigger] self.nodes@[n]).word_id != Some(word_id) implies max_ok_at(self.nodes@, self.metas(), n) by {
                                if n < pre1.len() {
                                    assert(self.nodes@[n] == pre1[n]);
                                    lemma_children_max_frame(pre1[n].children@, pre1, self.nodes@);
                                } else {
                                    assert(self.nodes@[n].children@.len() == 0);
                                }
                            }
                        }
                    }
                    let ghost pre2 = self.nodes@;
                    let nd = &mut self.nodes[node_idx];
                    let ghost oldc = nd.children@;
                    nd.children.push((b, new_idx));
                    proof {
                        assert(self.nodes@ =~= pre2.update(
                            node_idx as int,
                            self.nodes@[node_idx as int],
                        ));
                        assert(self.nodes@[node_idx as int].children@ == oldc.push((b, new_idx)));
                        lemma_child_in_push(oldc, b, new_idx);
                        lemma_child_none(oldc, b);
                        assert(nodes_wf(self.nodes@)) by {
                            assert forall|n2: int, j: int|
                                0 <= n2 < self.nodes@.len() && 0 <= j < self.nodes@[n2].children@.len() implies n2 < #[trigger] self.nodes@[n2].children@[j].1 < self.nodes@.len() by {
                                if n2 == node_idx && j == self.nodes@[n2].children@.len() - 1 {
                                } else {
                                    assert(self.nodes@[n2].children@[j]
                                        == pre2[n2].children@[j]);
                                }
                            }
                            assert forall|n2: int, ii: int, j: int|
                                0 <= n2 < self.nodes@.len() && 0 <= ii < j < self.nodes@[n2].children@.len() implies (#[trigger] self.nodes@[n2].children@[ii]).0 != (#[trigger] self.nodes@[n2].children@[j]).0 by {
                                if n2 == node_idx && j == self.nodes@[n2].children@.len() - 1 {
                                    assert(self.nodes@[n2].children@[ii] == oldc[ii]);
                                } else {
                                    assert(self.nodes@[n2].children@[ii]
                                        == pre2[n2].children@[ii]);
                                    assert(self.nodes@[n2].children@[j] == pre2[n2].children@[j]);
                                }
                            }
                        }
                        lemma_node_at_frame(pre2, self.nodes@, 0, kb.take(i as int));
                        if node_at(old(self).nodes@, 0, kb) matches Some(m) {
                            lemma_node_at_frame(pre2, self.nodes@, 0, kb);
                        }
                        lemma_node_at_snoc(self.nodes@, 0, kb.take(i as int), b);
                        assert(kb.take(i + 1) =~= kb.take(i as int).push(b));
                        if sp {
                            // Existing links all target nodes below the
                            // fresh one, so the new link keeps every
                            // node single-parented.
                            assert forall|n2: int, j: int|
                                0 <= n2 < pre2.len() && 0 <= j < pre2[n2].children@.len() implies (#[trigger] pre2[n2].children@[j]).1 < new_idx by {
                                if n2 < new_idx {
                                    assert(pre2[n2].children == pre1[n2].children);
                                } else {
                                    assert(pre2[n2].children@.len() == 0);
                                }
                            }
                            assert forall|n1: int, j1: int, n2: int, j2: int|
                                0 <= n1 < self.nodes@.len() && 0 <= j1 < self.nodes@[n1].children@.len() && 0 <= n2 < self.nodes@.len() && 0 <= j2 < self.nodes@[n2].children@.len() && (#[trigger] self.nodes@[n1].children@[j1]).1 == (#[trigger] self.nodes@[n2].children@[j2]).1 implies n1 == n2 && j1 == j2 by {
                                let last = self.nodes@[node_idx as int].children@.len() - 1;
                                if n1 == node_idx && j1 == last {
                                    if !(n2 == node_idx && j2 == last) {
                                        assert(self.nodes@[n2].children@[j2] == pre2[n2].children@[j2]);
                                        assert(false);
                                    }
                                } else if n2 == node_idx && j2 == last {
                                    assert(self.nodes@[n1].children@[j1] == pre2[n1].children@[j1]);
                                    assert(false);
                                } else {
                                    assert(self.nodes@[n1].children@[j1] == pre2[n1].children@[j1]);
                                    assert(self.nodes@[n2].children@[j2] == pre2[n2].children@[j2]);
                                }
                            }
                        }
                        assert forall|k2: Seq<u8>| #[trigger]
                            lookup_at(self.nodes@, 0, k2) == lookup_at(pre1, 0, k2) by {
                            lemma_lookup_new_leaf(
                                pre1,
                                self.nodes@,
                                node_idx as int,
                                b,
                                new_idx,
                                0,
                                k2,
                            );
                        }
                        if cond {
                            assert forall|n: int|
                                0 <= n < self.nodes@.len() && (#[trigger] self.nodes@[n]).word_id != Some(word_id) implies max_ok_at(self.nodes@, self.metas(), n) by {
                                if n == node_idx {
                                    lemma_children_max_frame(oldc, pre2, self.nodes@);
                                    lemma_children_max_push(oldc, b, new_idx, self.nodes@);
                                    assert(self.nodes@[new_idx as int].max_freq_in_subtree == 0);
                                    assert(children_max(self.nodes@[node_idx as int].children@, self.nodes@) == children_max(oldc, pre2));
                                } else {
                                    assert(self.nodes@[n] == pre2[n]);
                                    lemma_children_max_frame(pre2[n].children@, pre2, self.nodes@);
                                }
                            }
                        }
                    }
                    next = new_idx;
                },
            }
            path.push(next);
            node_idx = next;
            i += 1;
        }
        proof {
            assert(kb.take(kb.len() as int) =~= kb);
        }
        // Mark the end of the path as terminal for `word_id`.
        let ghost pre3 = self.nodes@;
        let nd = &mut self.nodes[node_idx];
        nd.word_id = Some(word_id);
        proof {
            assert(self.nodes@ =~= pre3.update(node_idx as int, self.nodes@[node_idx as int]));
            if dup {
                // The terminal already named this word, so writing it
                // again changes nothing.
                assert(pre3 == old(self).nodes@);
                assert(node_at(pre3, 0, kb) == Some(node_idx as int));
                assert(pre3[node_idx as int].word_id == Some(word_id));
                assert(self.nodes@[node_idx as int].word_id == pre3[node_idx as int].word_id);
                assert(self.nodes@[node_idx as int].children == pre3[
                    node_idx as int
                ].children);
                assert(self.nodes@[node_idx as int].max_freq_in_subtree == pre3[
                    node_idx as int
                ].max_freq_in_subtree);
                assert(self.nodes@[node_idx as int] == pre3[node_idx as int]);
                assert(self.nodes@ =~= pre3);
            }
            assert forall|n2: int| 0 <= n2 < self.nodes@.len() implies self.nodes@[n2].children
                == pre3[n2].children by {}
            lemma_node_at_frame_eq_children(pre3, self.nodes@, 0, kb);
            if sp {
                assert forall|k2: Seq<u8>|
                    k2 != kb implies #[trigger] lookup_at(self.nodes@, 0, k2) == lookup_at(
                    pre3,
                    0,
                    k2,
                ) by {
                    lemma_node_at_frame_eq_children(pre3, self.nodes@, 0, k2);
                    match node_at(pre3, 0, k2) {
                        Some(n) => {
                            lemma_node_at_in_range(pre3, 0, k2);
                            if n == node_idx as int {
                                lemma_node_at_unique(pre3, k2, kb, node_idx as int);
                                assert(false);
                            } else {
                                assert(self.nodes@[n].word_id == pre3[n].word_id);
                            }
                        },
                        None => {},
                    }
                }
            }
            if cond {
                assert forall|n: int|
                    0 <= n < self.nodes@.len() && n != node_idx implies max_ok_at(
                    self.nodes@,
                    self.metas(),
                    n,
                ) by {
                    if pre3[n].word_id == Some(word_id) {
                        // An old terminal of this word lies at the end
                        // of the key's path, which is this very node.
                        assert(n < old(self).nodes@.len());
                        assert(old(self).nodes@[n].word_id == Some(word_id));
                        assert(node_at(old(self).nodes@, 0, kb) == Some(n));
                        assert(node_at(pre3, 0, kb) == Some(n));
                        assert(false);
                    } else {
                        assert(max_ok_at(pre3, self.metas(), n));
                        assert(self.nodes@[n] == pre3[n]);
                        assert(terminal_freq(self.nodes@, self.metas(), n) == terminal_freq(
                            pre3,
                            self.metas(),
                            n,
                        ));
                        lemma_children_max_frame(pre3[n].children@, pre3, self.nodes@);
                    }
                }
            }
            if sp {
                assert(single_parent(self.nodes@)) by {
                    assert forall|n1: int, j1: int, n2: int, j2: int|
                        0 <= n1 < self.nodes@.len() && 0 <= j1 < self.nodes@[n1].children@.len() && 0 <= n2 < self.nodes@.len() && 0 <= j2 < self.nodes@[n2].children@.len() && (#[trigger] self.nodes@[n1].children@[j1]).1 == (#[trigger] self.nodes@[n2].children@[j2]).1 implies n1 == n2 && j1 == j2 by {
                        assert(self.nodes@[n1].children == pre3[n1].children);
                        assert(self.nodes@[n2].children == pre3[n2].children);
                    }
                }
            }
        }
        // Refresh subtree maxima along the path, leaf first; stop early
        // when a stored value is already correct.
        let mut pi: usize = path.len();
        let mut done = false;
        while pi > 0 && !done
            invariant
                self.wf(),
                self.metas() == old(self).metas(),
                node_at(old(self).nodes@, 0, kb) is Some
                    ==> self.nodes@.len() == old(self).nodes@.len(),
                dup ==> self.nodes@ == old(self).nodes@,
                dup == (old(self).lookup_id(kb) == Some(word_id) && old(self).max_ok()),
                pi <= path@.len(),
                path@.len() == kb.len() + 1,
                path@[0] == 0,
                forall|j: int| 0 <= j < path@.len() ==> path@[j] < self.nodes@.len(),
                forall|j: int|
                    0 <= j < kb.len() ==> child_in(
                        self.nodes@[path@[j] as int].children@,
                        kb[j],
                    ) == Some(path@[j + 1]),
                forall|j: int| 0 <= j < kb.len() ==> #[trigger] path@[j] < path@[j + 1],
                node_at(self.nodes@, 0, kb) == Some(path@[path@.len() - 1] as int),
                self.nodes@[path@[path@.len() - 1] as int].word_id == Some(word_id),
                cond ==> sp,
                sp ==> single_parent(self.nodes@),
                sp ==> forall|k2: Seq<u8>|
                    k2 != kb ==> #[trigger] lookup_at(self.nodes@, 0, k2) == lookup_at(
                        old(self).nodes@,
                        0,
                        k2,
                    ),
                cond ==> forall|n: int|
                    0 <= n < self.nodes@.len() && !(!done && pi > 0 && n == path@[pi - 1])
                        ==> max_ok_at(self.nodes@, self.metas(), n),
            decreases pi,
        {
            pi -= 1;
            let idx = path[pi];
            let ghost snap = *self;
            let own: u64 = match self.nodes[idx].word_id {
                Some(id) => {
                    proof {
                        assert(self.nodes@[idx as int].word_id matches Some(i2) ==> i2
                            < self.metas().len());
                    }
                    self.metadata_store[id].frequency
                },
                None => 0,
            };
            proof {
                assert(own == terminal_freq(self.nodes@, self.metas(), idx as int));
            }
            let mut mx: u64 = own;
            let mut ci: usize = 0;
            let nchild = self.nodes[idx].children.len();
            proof {
                assert(self.nodes@[idx as int].children@.take(0) =~= Seq::<(u8, usize)>::empty());
            }
            while ci < nchild
                invariant
                    *self == snap,
                    self.wf(),
                    idx < self.nodes@.len(),
                    nchild == self.nodes@[idx as int].children@.len(),
                    ci <= nchild,
                    own == terminal_freq(self.nodes@, self.metas(), idx as int),
                    mx == max64(
                        own,
                        children_max(
                            self.nodes@[idx as int].children@.take(ci as int),
                            self.nodes@,
                        ),
                    ),
                decreases nchild - ci,
            {
                let c = self.nodes[idx].children[ci].1;
                let m = self.nodes[c].max_freq_in_subtree;
                proof {
                    assert(self.nodes@[idx as int].children@.take(ci + 1).drop_last()
                        =~= self.nodes@[idx as int].children@.take(ci as int));
                }
                if m > mx {
                    mx = m;
                }
                ci += 1;
            }
            proof {
                assert(self.nodes@[idx as int].children@.take(nchild as int) =~= self.nodes@[idx as int].children@);
                assert(mx == max64(
                    own,
                    children_max(self.nodes@[idx as int].children@, self.nodes@),
                ));
            }
            if mx == self.nodes[idx].max_freq_in_subtree {
                done = true;
                proof {
                    if cond {
                        assert(max_ok_at(self.nodes@, self.metas(), idx as int));
                    }
                }
            } else {
                let ghost pre4 = self.nodes@;
                let nd = &mut self.nodes[idx];
                nd.max_freq_in_subtree = mx;
                proof {
                    if dup {
                        // The stored maximum was already the recomputed
                        // one, so this branch is unreachable.
                        assert(pre4 == old(self).nodes@);
                        assert(max_ok_at(pre4, self.metas(), idx as int));
                        assert(false);
                    }
                    assert(self.nodes@ =~= pre4.update(idx as int, self.nodes@[idx as int]));
                    assert forall|n2: int|
                        0 <= n2 < self.nodes@.len() implies self.nodes@[n2].children == pre4[n2].children by {}
                    assert forall|n2: int|
                        0 <= n2 < self.nodes@.len() implies self.nodes@[n2].word_id == pre4[n2].word_id by {}
                    lemma_node_at_frame_eq_children(pre4, self.nodes@, 0, kb);
                    if sp {
                        assert forall|k2: Seq<u8>|
                            k2 != kb implies #[trigger] lookup_at(self.nodes@, 0, k2)
                            == lookup_at(pre4, 0, k2) by {
                            lemma_lookup_frame_words(pre4, self.nodes@, 0, k2);
                        }
                    }
                    if cond {
                        assert(single_parent(pre4));
                        // Only this node's unique parent can lose the
                        // equation; everything else keeps it.
                        assert forall|n: int|
                            0 <= n < self.nodes@.len() && !(pi > 0 && n == path@[pi - 1]) implies max_ok_at(self.nodes@, self.metas(), n) by {
                            if n == idx {
                                assert forall|j: int|
                                    0 <= j < self.nodes@[idx as int].children@.len() implies (#[trigger] self.nodes@[idx as int].children@[j]).1 != idx by {}
                                lemma_children_max_frame(
                                    self.nodes@[idx as int].children@,
                                    pre4,
                                    self.nodes@,
                                );
                                assert(terminal_freq(self.nodes@, self.metas(), idx as int)
                                    == own);
                            } else {
                                // No link from `n` targets `idx`.
                                assert forall|j: int|
                                    0 <= j < self.nodes@[n].children@.len() implies (#[trigger] self.nodes@[n].children@[j]).1 != idx by {
                                    if self.nodes@[n].children@[j].1 == idx {
                                        if pi > 0 {
                                            lemma_child_in_some(
                                                pre4[path@[pi - 1] as int].children@,
                                                kb[pi - 1],
                                                idx,
                                            );
                                            let j0 = choose|j0: int|
                                                0 <= j0 < pre4[path@[pi - 1] as int].children@.len() && #[trigger] pre4[path@[pi - 1] as int].children@[j0] == (kb[pi - 1], idx as usize);
                                            assert(pre4[n].children@[j] == self.nodes@[n].children@[j]);
                                            assert(pre4[n].children@[j].1 == pre4[path@[pi - 1] as int].children@[j0].1);
                                            assert(n == path@[pi - 1]);
                                            assert(false);
                                        } else {
                                            assert(path@[0] == 0);
                                            assert(idx == 0);
                                            assert(false);
                                        }
                                    }
                                }
                                assert(self.nodes@[n] == pre4[n]);
                                assert(max_ok_at(pre4, self.metas(), n));
                                lemma_children_max_frame(pre4[n].children@, pre4, self.nodes@);
                                assert(terminal_freq(self.nodes@, self.metas(), n)
                                    == terminal_freq(pre4, self.metas(), n));
                            }
                        }
                    }
                    if sp {
                        assert(single_parent(self.nodes@)) by {
                            assert forall|n1: int, j1: int, n2: int, j2: int|
                                0 <= n1 < self.nodes@.len() && 0 <= j1 < self.nodes@[n1].children@.len() && 0 <= n2 < self.nodes@.len() && 0 <= j2 < self.nodes@[n2].children@.len() && (#[trigger] self.nodes@[n1].children@[j1]).1 == (#[trigger] self.nodes@[n2].children@[j2]).1 implies n1 == n2 && j1 == j2 by {
                                assert(self.nodes@[n1].children == pre4[n1].children);
                                assert(self.nodes@[n2].children == pre4[n2].children);
                            }
                        }
                    }
                }
            }
        }
    }

    /// Recomputes the subtree-maximum equation at every node from the
    /// stored child values and reports whether every stored value agrees.
    pub fn check_max_consistency(&self) -> (r: bool)
        requires
            self.wf(),
        ensures
            r == self.max_ok(),
    {
        let mut n: usize = 0;
        while n < self.nodes.len()
            invariant
                self.wf(),
                n <= self.nodes@.len(),
                forall|m: int| 0 <= m < n ==> max_ok_at(self.nodes@, self.metas(), m),
            decreases self.nodes@.len() - n,
        {
            let own: u64 = match self.nodes[n].word_id {
                Some(id) => {
                    proof {
                        assert(self.nodes@[n as int].word_id matches Some(i2) ==> i2
                            < self.metas().len());
                    }
                    self.metadata_store[id].frequency
                },
                None => 0,
            };
            proof {
                assert(own == terminal_freq(self.nodes@, self.metas(), n as int));
            }
            let mut mx: u64 = 0;
            let mut ci: usize = 0;
            let nchild = self.nodes[n].children.len();
            while ci < nchild
                invariant
                    self.wf(),
                    n < self.nodes@.len(),
                    nchild == self.nodes@[n as int].children@.len(),
                    ci <= nchild,
                    mx == children_max(
                        self.nodes@[n as int].children@.take(ci as int),
                        self.nodes@,
                    ),
                decreases nchild - ci,
            {
                let c = self.nodes[n].children[ci].1;
                let m = self.nodes[c].max_freq_in_subtree;
                proof {
                    assert(self.nodes@[n as int].children@.take(ci + 1).drop_last()
                        =~= self.nodes@[n as int].children@.take(ci as int));
                }
                if m > mx {
                    mx = m;
                }
                ci += 1;
            }
            proof {
                assert(self.nodes@[n as int].children@.take(nchild as int) =~= self.nodes@[
                    n as int
                ].children@);
            }
            let expected = if own >= mx {
                own
            } else {
                mx
            };
            if expected != self.nodes[n].max_freq_in_subtree {
                proof {
                    assert(!max_ok_at(self.nodes@, self.metas(), n as int));
                    assert(!self.max_ok());
                }
                return false;
            }
            proof {
                assert(max_ok_at(self.nodes@, self.metas(), n as int));
            }
            n += 1;
        }
        true
    }

    /// Top suggestions under `prefix`: at most `k` pairs of distinct
    /// word identifier and its current frequency, positive frequencies
    /// only, ordered by descending frequency; empty when the prefix
    /// path is absent. When the subtree-maximum equation holds
    /// everywhere, the collection is also complete: every word under
    /// the prefix with a positive frequency is returned unless `k`
    /// words at least as frequent are returned in its stead.
    pub fn get_top_k_suggestions(&self, prefix: &str, k: usize) -> (r: Vec<(WordId, u64)>)
        requires
            self.wf(),
        ensures
            r@.len() <= k,
            sorted_desc(r@),
            ids_distinct(r@),
            forall|j: int|
                0 <= j < r@.len() ==> #[trigger] r@[j].0 < self.metas().len() && r@[j].1
                    == self.metas()[r@[j].0 as int].frequency && r@[j].1 > 0
                    && self.reachable_under(prefix.spec_bytes(), r@[j].0),
            self.max_ok() ==> forall|id: WordId|
                id < self.metas().len() && self.metas()[id as int].frequency > 0
                    && self.reachable_under(prefix.spec_bytes(), id) ==> self.covered(
                    r@,
                    k as int,
                    id,
                ),
    {
        let bytes = prefix.as_bytes_vec();
        let ghost kb = prefix.spec_bytes();
        let mut node_idx: usize = 0;
        let mut i: usize = 0;
        proof {
            assert(kb.take(0) =~= Seq::<u8>::empty());
        }
        while i < bytes.len()
            invariant
                self.wf(),
                bytes@ == kb,
                kb == prefix.spec_bytes(),
                i <= bytes@.len(),
                node_idx < self.nodes@.len(),
                node_at(self.nodes@, 0, kb.take(i as int)) == Some(node_idx as int),
            decreases bytes@.len() - i,
        {
            let b = bytes[i];
            match self.find_child(node_idx, b) {
                Some(c) => {
                    proof {
                        lemma_node_at_snoc(self.nodes@, 0, kb.take(i as int), b);
                        assert(kb.take(i + 1) =~= kb.take(i as int).push(b));
                    }
                    node_idx = c;
                },
                None => {
                    proof {
                        // No key extending the prefix can be walked: the
                        // walk already fails at this byte.
                        assert forall|id: WordId| !self.reachable_under(
                            prefix.spec_bytes(),
                            id,
                        ) by {
                            assert(kb == prefix.spec_bytes());
                            if self.reachable_under(prefix.spec_bytes(), id) {
                                let kk = choose|kk: Seq<u8>|
                                    kk.len() >= kb.len() && kk.take(kb.len() as int) == kb
                                        && self.lookup_id(kk) == Some(id);
                                assert(kk.len() >= kb.len() && kk.take(kb.len() as int) == kb
                                    && self.lookup_id(kk) == Some(id));
                                assert(kk.take(i as int) =~= kb.take(i as int));
                                assert(kk =~= kk.take(i as int) + kk.skip(i as int));
                                lemma_node_at_concat(
                                    self.nodes@,
                                    0,
                                    kk.take(i as int),
                                    kk.skip(i as int),
                                );
                                assert(kk.skip(i as int)[0] == kk[i as int]);
                                assert(kk[i as int] == kb[i as int]);
                                assert(node_at(
                                    self.nodes@,
                                    node_idx as int,
                                    kk.skip(i as int),
                                ) matches None);
                                assert(node_at(self.nodes@, 0, kk) matches None);
                                assert(false);
                            }
                        }
                    }
                    return Vec::new();
                },
            }
            i += 1;
        }
        proof {
            assert(kb.take(kb.len() as int) =~= kb);
            assert(kb.take(kb.len() as int).take(kb.len() as int) =~= kb);
        }
        let mut heap: Vec<(WordId, u64)> = Vec::new();
        self.dfs_collect(node_idx, k, &mut heap, Ghost(kb), Ghost(kb));
        let ghost pre_sort = heap@;
        sort_pairs_desc(&mut heap);
        proof {
            broadcast use vstd::seq_lib::group_to_multiset_ensures;

            assert(heap@.len() == heap@.to_multiset().len());
            assert(pre_sort.len() == pre_sort.to_multiset().len());
            assert(heap@.len() == pre_sort.len());
            assert forall|j: int|
                0 <= j < heap@.len() implies #[trigger] heap@[j].0 < self.metas().len()
                && heap@[j].1 == self.metas()[heap@[j].0 as int].frequency && heap@[j].1 > 0
                && self.reachable_under(kb, heap@[j].0) by {
                assert(heap@.contains(heap@[j]));
                assert(heap@.to_multiset().count(heap@[j]) > 0);
                assert(pre_sort.to_multiset().count(heap@[j]) > 0);
                assert(pre_sort.contains(heap@[j]));
                let jj = choose|jj: int| 0 <= jj < pre_sort.len() && pre_sort[jj] == heap@[j];
                assert(self.entry_ok(pre_sort[jj], kb));
            }
            // Pairwise-distinct identifiers survive the permutation:
            // each pair is its word's unique frequency pair.
            pre_sort.lemma_multiset_has_no_duplicates();
            heap@.lemma_multiset_has_no_duplicates_conv();
            assert forall|a: int, b: int| 0 <= a < b < heap@.len() implies (
            #[trigger] heap@[a]).0 != (#[trigger] heap@[b]).0 by {
                if heap@[a].0 == heap@[b].0 {
                    assert(heap@[a].1 == self.metas()[heap@[a].0 as int].frequency);
                    assert(heap@[b].1 == self.metas()[heap@[b].0 as int].frequency);
                    assert(heap@[a] == heap@[b]);
                }
            }
            if self.max_ok() {
                assert forall|id: WordId|
                    id < self.metas().len() && self.metas()[id as int].frequency > 0
                        && self.reachable_under(kb, id) implies self.covered(
                    heap@,
                    k as int,
                    id,
                ) by {
                    assert(self.covered(pre_sort, k as int, id));
                    if in_pairs(pre_sort, id) {
                        let j = choose|j: int| 0 <= j < pre_sort.len() && pre_sort[j].0 == id;
                        assert(pre_sort.contains(pre_sort[j]));
                        assert(pre_sort.to_multiset().count(pre_sort[j]) > 0);
                        assert(heap@.to_multiset().count(pre_sort[j]) > 0);
                        assert(heap@.contains(pre_sort[j]));
                        let j2 = choose|j2: int|
                            0 <= j2 < heap@.len() && heap@[j2] == pre_sort[j];
                        assert(in_pairs(heap@, id));
                    } else {
                        assert forall|j: int|
                            0 <= j < heap@.len() implies self.metas()[id as int].frequency <= (
                        #[trigger] heap@[j]).1 by {
                            assert(heap@.contains(heap@[j]));
                            assert(heap@.to_multiset().count(heap@[j]) > 0);
                            assert(pre_sort.to_multiset().count(heap@[j]) > 0);
                            assert(pre_sort.contains(heap@[j]));
                            let jj = choose|jj: int|
                                0 <= jj < pre_sort.len() && pre_sort[jj] == heap@[j];
                            assert(self.metas()[id as int].frequency <= pre_sort[jj].1);
                        }
                    }
                }
            }
        }
        heap
    }

    /// Walks the subtree under `node_idx`, reached from the root along
    /// `ck` extending the queried prefix, keeping in `heap` up to `k`
    /// of the distinct terminal words seen, replacing the current
    /// minimum when a higher frequency arrives; skips subtrees whose
    /// stored maximum cannot beat a full heap's minimum. Everything
    /// once collected stays covered: it remains in the heap, or the
    /// heap is full of scores at least as large. Under the
    /// subtree-maximum equation the walk covers every positive word of
    /// the subtree.
    fn dfs_collect(
        &self,
        node_idx: usize,
        k: usize,
        heap: &mut Vec<(WordId, u64)>,
        Ghost(pfx): Ghost<Seq<u8>>,
        Ghost(ck): Ghost<Seq<u8>>,
    )
        requires
            self.wf(),
            node_idx < self.nodes@.len(),
            node_at(self.nodes@, 0, ck) == Some(node_idx as int),
            ck.len() >= pfx.len(),
            ck.take(pfx.len() as int) == pfx,
            old(heap)@.len() <= k,
            ids_distinct(old(heap)@),
            forall|j: int| 0 <= j < old(heap)@.len() ==> self.entry_ok(#[trigger] old(heap)@[j], pfx),
        ensures
            old(heap)@.len() <= final(heap)@.len() <= k,
            ids_distinct(final(heap)@),
            forall|j: int| 0 <= j < final(heap)@.len() ==> self.entry_ok(#[trigger] final(heap)@[j], pfx),
            forall|id: WordId|
                in_pairs(old(heap)@, id) ==> self.covered(final(heap)@, k as int, id),
            forall|x: u64|
                old(heap)@.len() == k && below_all(x, old(heap)@) ==> below_all(
                    x,
                    final(heap)@,
                ),
            self.max_ok() ==> forall|id: WordId|
                id < self.metas().len() && self.metas()[id as int].frequency > 0
                    && self.reachable_under(ck, id) ==> self.covered(final(heap)@, k as int, id),
        decreases self.nodes@.len() - node_idx,
    {
        let ghost cond = self.max_ok();
        let ghost h0 = heap@;
        let ghost own_id = self.nodes@[node_idx as int].word_id;
        if let Some(id) = self.nodes[node_idx].word_id {
            let freq = self.metadata_store[id].frequency;
            proof {
                assert(self.lookup_id(ck) == Some(id));
                assert(self.reachable_under(pfx, id));
                assert(self.reachable_under(ck, id)) by {
                    assert(ck.take(ck.len() as int) =~= ck);
                }
            }
            if freq > 0 && !contains_id(heap, id) {
                if heap.len() < k {
                    heap.push((id, freq));
                    proof {
                        assert forall|id2: WordId| in_pairs(h0, id2) implies in_pairs(
                            heap@,
                            id2,
                        ) by {
                            let j = choose|j: int| 0 <= j < h0.len() && h0[j].0 == id2;
                            assert(heap@[j].0 == id2);
                        }
                        assert(in_pairs(heap@, id)) by {
                            assert(heap@.last().0 == id);
                        }
                    }
                } else {
                    match min_index(heap) {
                        Some(mi) => {
                            if freq > heap[mi].1 {
                                let ghost evicted = heap@[mi as int];
                                heap.set(mi, (id, freq));
                                proof {
                                    assert(in_pairs(heap@, id)) by {
                                        assert(heap@[mi as int].0 == id);
                                    }
                                    assert forall|id2: WordId|
                                        in_pairs(h0, id2) implies self.covered(
                                        heap@,
                                        k as int,
                                        id2,
                                    ) by {
                                        let j = choose|j: int|
                                            0 <= j < h0.len() && h0[j].0 == id2;
                                        if j != mi {
                                            assert(heap@[j].0 == id2);
                                        } else {
                                            // The evicted entry was a
                                            // minimum; everything kept
                                            // scores at least as much.
                                            assert forall|j2: int|
                                                0 <= j2 < heap@.len() implies self.metas()[
                                                id2 as int
                                            ].frequency <= (#[trigger] heap@[j2]).1 by {
                                                if j2 != mi {
                                                    assert(heap@[j2] == h0[j2]);
                                                    assert(evicted.1 <= h0[j2].1);
                                                }
                                            }
                                        }
                                    }
                                    assert forall|x: u64|
                                        h0.len() == k && below_all(x, h0) implies below_all(
                                        x,
                                        heap@,
                                    ) by {
                                        if h0.len() == k && below_all(x, h0) {
                                            assert forall|j: int|
                                                0 <= j < heap@.len() implies x <= (
                                            #[trigger] heap@[j]).1 by {
                                                if j != mi {
                                                    assert(heap@[j] == h0[j]);
                                                } else {
                                                    assert(x <= evicted.1 < freq);
                                                }
                                            }
                                        }
                                    }
                                }
                            } else {
                                proof {
                                    // Not collected, but the full heap
                                    // scores at least this frequency
                                    // everywhere.
                                    assert(self.covered(heap@, k as int, id)) by {
                                        assert forall|j2: int|
                                            0 <= j2 < heap@.len() implies freq <= (
                                        #[trigger] heap@[j2]).1 by {
                                            assert(heap@[mi as int].1 <= heap@[j2].1);
                                        }
                                    }
                                }
                            }
                        },
                        None => {},
                    }
                }
            }
        }
        let ghost h1 = heap@;
        proof {
            assert(h1.len() <= k);
            assert(ids_distinct(h1));
            assert forall|id2: WordId| in_pairs(h0, id2) implies self.covered(
                h1,
                k as int,
                id2,
            ) by {
                if h1 == h0 {
                    let j = choose|j: int| 0 <= j < h0.len() && h0[j].0 == id2;
                    assert(h1[j].0 == id2);
                }
            }
            assert forall|x: u64| h0.len() == k && below_all(x, h0) implies below_all(
                x,
                h1,
            ) by {
                if h0.len() == k && below_all(x, h0) && h1 == h0 {
                    assert forall|j: int| 0 <= j < h1.len() implies x <= (
                    #[trigger] h1[j]).1 by {
                        assert(h1[j] == h0[j]);
                    }
                }
            }
            // The node's own terminal, if positive, is covered now.
            if cond {
                match own_id {
                    Some(id0) => {
                        if self.metas()[id0 as int].frequency > 0 {
                            assert(self.covered(h1, k as int, id0));
                        }
                    },
                    None => {},
                }
            }
        }
        let full_at_threshold = heap.len() >= k;
        let threshold: u64 = if full_at_threshold {
            match min_index(heap) {
                Some(mi) => heap[mi].1,
                None => 0,
            }
        } else {
            0
        };
        proof {
            if full_at_threshold {
                assert(below_all(threshold, h1));
            }
        }
        let nchild = self.nodes[node_idx].children.len();
        let mut ci: usize = 0;
        while ci < nchild
            invariant
                self.wf(),
                cond == self.max_ok(),
                node_idx < self.nodes@.len(),
                node_at(self.nodes@, 0, ck) == Some(node_idx as int),
                ck.len() >= pfx.len(),
                ck.take(pfx.len() as int) == pfx,
                nchild == self.nodes@[node_idx as int].children@.len(),
                ci <= nchild,
                h1.len() <= heap@.len() <= k,
                ids_distinct(heap@),
                forall|j: int| 0 <= j < heap@.len() ==> self.entry_ok(#[trigger] heap@[j], pfx),
                forall|id: WordId| in_pairs(h1, id) ==> self.covered(heap@, k as int, id),
                forall|x: u64|
                    h1.len() == k && below_all(x, h1) ==> below_all(x, heap@),
                full_at_threshold ==> heap@.len() == k && below_all(threshold, heap@),
                !full_at_threshold ==> threshold == 0,
                cond ==> forall|id: WordId, j: int|
                    0 <= j < ci && id < self.metas().len() && self.metas()[
                        id as int
                    ].frequency > 0 && self.reachable_under(
                        ck.push(self.nodes@[node_idx as int].children@[j].0),
                        id,
                    ) ==> self.covered(heap@, k as int, id),
            decreases nchild - ci,
        {
            let b = self.nodes[node_idx].children[ci].0;
            let c = self.nodes[node_idx].children[ci].1;
            let ghost hc = heap@;
            if self.nodes[c].max_freq_in_subtree > threshold {
                proof {
                    lemma_child_get(self.nodes@[node_idx as int].children@, ci as int, b);
                    lemma_node_at_snoc(self.nodes@, 0, ck, b);
                    assert(node_at(self.nodes@, 0, ck.push(b)) == Some(c as int));
                    assert(ck.push(b).take(pfx.len() as int) =~= pfx);
                }
                self.dfs_collect(c, k, heap, Ghost(pfx), Ghost(ck.push(b)));
                proof {
                    // Coverage established earlier persists: still in
                    // the heap, or the heap stayed full of scores at
                    // least as large.
                    assert forall|id: WordId|
                        in_pairs(h1, id) implies self.covered(heap@, k as int, id) by {
                        assert(self.covered(hc, k as int, id));
                        if !in_pairs(hc, id) {
                            assert(below_all(self.metas()[id as int].frequency, heap@));
                        }
                    }
                    assert forall|x: u64|
                        h1.len() == k && below_all(x, h1) implies below_all(x, heap@) by {
                        if h1.len() == k && below_all(x, h1) {
                            assert(below_all(x, hc));
                            assert(hc.len() == k);
                        }
                    }
                    if full_at_threshold {
                        assert(below_all(threshold, hc));
                        assert(hc.len() == k);
                        assert(below_all(threshold, heap@));
                    }
                    if cond {
                        assert forall|id: WordId, j: int|
                            0 <= j < ci + 1 && id < self.metas().len() && self.metas()[
                                id as int
                            ].frequency > 0 && self.reachable_under(
                                ck.push(self.nodes@[node_idx as int].children@[j].0),
                                id,
                            ) implies self.covered(heap@, k as int, id) by {
                            if j < ci {
                                assert(self.covered(hc, k as int, id));
                                if !in_pairs(hc, id) {
                                    assert(below_all(
                                        self.metas()[id as int].frequency,
                                        heap@,
                                    ));
                                }
                            }
                        }
                    }
                }
            } else {
                proof {
                    // Pruned: under the subtree-maximum equation no
                    // word below this child can beat the threshold,
                    // and the full heap already covers that much.
                    if cond {
                        lemma_child_get(self.nodes@[node_idx as int].children@, ci as int, b);
                        lemma_node_at_snoc(self.nodes@, 0, ck, b);
                        assert(node_at(self.nodes@, 0, ck.push(b)) == Some(c as int));
                        assert forall|id: WordId, j: int|
                            0 <= j < ci + 1 && id < self.metas().len() && self.metas()[
                                id as int
                            ].frequency > 0 && self.reachable_under(
                                ck.push(self.nodes@[node_idx as int].children@[j].0),
                                id,
                            ) implies self.covered(heap@, k as int, id) by {
                            if j == ci && !self.covered(heap@, k as int, id) {
                                let cb = ck.push(b);
                                let kk = choose|kk: Seq<u8>|
                                    kk.len() >= cb.len() && kk.take(cb.len() as int) == cb
                                        && self.lookup_id(kk) == Some(id);
                                assert(kk =~= kk.take(cb.len() as int) + kk.skip(
                                    cb.len() as int,
                                ));
                                lemma_node_at_concat(
                                    self.nodes@,
                                    0,
                                    kk.take(cb.len() as int),
                                    kk.skip(cb.len() as int),
                                );
                                let m = node_at(self.nodes@, 0, kk).unwrap();
                                assert(node_at(
                                    self.nodes@,
                                    c as int,
                                    kk.skip(cb.len() as int),
                                ) == Some(m));
                                lemma_subtree_max_bound(
                                    self.nodes@,
                                    self.metas(),
                                    c as int,
                                    kk.skip(cb.len() as int),
                                );
                                assert(terminal_freq(self.nodes@, self.metas(), m)
                                    == self.metas()[id as int].frequency);
                                assert(self.metas()[id as int].frequency <= threshold);
                                assert(full_at_threshold);
                                assert forall|j2: int|
                                    0 <= j2 < heap@.len() implies self.metas()[
                                    id as int
                                ].frequency <= (#[trigger] heap@[j2]).1 by {
                                    assert(threshold <= heap@[j2].1);
                                }
                                assert(false);
                            }
                        }
                    }
                }
            }
            ci += 1;
        }
        proof {
            // Every word of this subtree either terminates here or lies
            // below one of the children just processed.
            if cond {
                assert forall|id: WordId|
                    id < self.metas().len() && self.metas()[id as int].frequency > 0
                        && self.reachable_under(ck, id) implies self.covered(
                    heap@,
                    k as int,
                    id,
                ) by {
                    let kk = choose|kk: Seq<u8>|
                        kk.len() >= ck.len() && kk.take(ck.len() as int) == ck
                            && self.lookup_id(kk) == Some(id);
                    if kk.len() == ck.len() {
                        assert(kk =~= ck);
                        assert(own_id == Some(id));
                        assert(self.covered(h1, k as int, id));
                        if !in_pairs(h1, id) {
                            assert(below_all(self.metas()[id as int].frequency, heap@));
                        }
                    } else {
                        let l = ck.len() as int;
                        let bb = kk[l];
                        assert(kk =~= kk.take(l + 1) + kk.skip(l + 1));
                        lemma_node_at_concat(self.nodes@, 0, kk.take(l + 1), kk.skip(l + 1));
                        assert(node_at(self.nodes@, 0, kk.take(l + 1)) matches Some(c2));
                        assert(kk.take(l + 1) =~= ck.push(bb)) by {
                            assert(kk.take(l) =~= ck);
                        }
                        lemma_node_at_snoc(self.nodes@, 0, ck, bb);
                        let cc = child_in(self.nodes@[node_idx as int].children@, bb).unwrap();
                        lemma_child_in_some(self.nodes@[node_idx as int].children@, bb, cc);
                        let j = choose|j: int|
                            0 <= j < self.nodes@[node_idx as int].children@.len()
                                && #[trigger] self.nodes@[node_idx as int].children@[j] == (
                            bb,
                            cc,
                        );
                        assert(self.reachable_under(
                            ck.push(self.nodes@[node_idx as int].children@[j].0),
                            id,
                        ));
                    }
                }
            }
        }
    }
}

/// Index of a minimal entry by score, if the vector is non-empty.
fn min_index(v: &Vec<(WordId, u64)>) -> (r: Option<usize>)
    ensures
        match r {
            Some(i) => i < v@.len() && forall|j: int| 0 <= j < v@.len() ==> v@[i as int].1
                <= #[trigger] v@[j].1,
            None => v@.len() == 0,
        },
{
    if v.len() == 0 {
        return None;
    }
    let mut best: usize = 0;
    let mut i: usize = 1;
    while i < v.len()
        invariant
            best < i <= v@.len(),
            forall|j: int| 0 <= j < i ==> v@[best as int].1 <= #[trigger] v@[j].1,
        decreases v@.len() - i,
    {
        if v[i].1 < v[best].1 {
            best = i;
        }
        i += 1;
    }
    Some(best)
}

/// Whether word `id` was already collected.
fn contains_id(v: &Vec<(WordId, u64)>, id: WordId) -> (r: bool)
    ensures
        r == in_pairs(v@, id),
{
    let mut i: usize = 0;
    while i < v.len()
        invariant
            i <= v@.len(),
            forall|j: int| 0 <= j < i ==> (#[trigger] v@[j]).0 != id,
        decreases v@.len() - i,
    {
        if v[i].0 == id {
            return true;
        }
        i += 1;
    }
    false
}


/// Index of the first metadata entry whose Devanagari form is `dev`, or
/// the store's length when no entry matches.
pub open spec fn first_dev(metas: Seq<WordMetadata>, dev: Seq<char>) -> int
    decreases metas.len(),
{
    if metas.len() == 0 {
        0
    } else if metas[0].devanagari@ == dev {
        0
    } else {
        1 + first_dev(metas.drop_first(), dev)
    }
}

/// A scan that fails before `i` and succeeds at `i` (or never, when `i`
/// is the length) pins down `first_dev`.
pub proof fn lemma_first_dev_at(metas: Seq<WordMetadata>, dev: Seq<char>, i: int)
    requires
        0 <= i <= metas.len(),
        forall|j: int| 0 <= j < i ==> metas[j].devanagari@ != dev,
        i < metas.len() ==> metas[i].devanagari@ == dev,
        i == metas.len() ==> forall|j: int| 0 <= j < metas.len() ==> metas[j].devanagari@ != dev,
    ensures
        first_dev(metas, dev) == i,
    decreases metas.len(),
{
    if metas.len() == 0 {
    } else if i == 0 {
    } else {
        let tail = metas.drop_first();
        assert forall|j: int| 0 <= j < i - 1 implies tail[j].devanagari@ != dev by {
            assert(tail[j] == metas[j + 1]);
        }
        if i - 1 < tail.len() {
            assert(tail[i - 1] == metas[i]);
        } else {
            assert forall|j: int| 0 <= j < tail.len() implies tail[j].devanagari@ != dev by {
                assert(tail[j] == metas[j + 1]);
            }
        }
        lemma_first_dev_at(tail, dev, i - 1);
    }
}

/// What `first_dev` finding index `i` says of the entries around it.
pub proof fn lemma_first_dev_inv(metas: Seq<WordMetadata>, dev: Seq<char>)
    ensures
        0 <= first_dev(metas, dev) <= metas.len(),
        forall|j: int| 0 <= j < first_dev(metas, dev) ==> metas[j].devanagari@ != dev,
        first_dev(metas, dev) < metas.len() ==> metas[first_dev(metas, dev)].devanagari@ == dev,
    decreases metas.len(),
{
    if metas.len() > 0 && metas[0].devanagari@ != dev {
        lemma_first_dev_inv(metas.drop_first(), dev);
        let tail = metas.drop_first();
        assert forall|j: int| 0 <= j < first_dev(metas, dev) implies metas[j].devanagari@
            != dev by {
            if j > 0 {
                assert(tail[j - 1] == metas[j]);
            }
        }
        if first_dev(metas, dev) < metas.len() {
            assert(tail[first_dev(tail, dev)] == metas[first_dev(metas, dev)]);
        }
    }
}

/// With distinct bytes, the entry at `i` is what `child_in` returns for
/// its byte.
proof fn lemma_child_get(children: Seq<(u8, usize)>, i: int, b: u8)
    requires
        forall|x: int, y: int|
            0 <= x < y < children.len() ==> (#[trigger] children[x]).0 != (
            #[trigger] children[y]).0,
        0 <= i < children.len(),
        children[i].0 == b,
    ensures
        child_in(children, b) == Some(children[i].1),
    decreases children.len(),
{
    if i < children.len() - 1 {
        lemma_child_get(children.drop_last(), i, b);
    }
}

/// When `child_in` finds nothing, no entry holds the byte.
proof fn lemma_child_none(children: Seq<(u8, usize)>, b: u8)
    requires
        child_in(children, b) == Option::<usize>::None,
    ensures
        forall|j: int| 0 <= j < children.len() ==> (#[trigger] children[j]).0 != b,
    decreases children.len(),
{
    if children.len() > 0 {
        lemma_child_none(children.drop_last(), b);
        assert forall|j: int| 0 <= j < children.len() implies (#[trigger] children[j]).0
            != b by {
            if j < children.len() - 1 {
                assert(children.drop_last()[j] == children[j]);
            }
        }
    }
}

/// A walk only moves to strictly larger node indices.
proof fn lemma_node_at_ge(nodes: Seq<Node>, m: int, key: Seq<u8>)
    requires
        nodes_wf(nodes),
        node_at(nodes, m, key) matches Some(n),
    ensures
        node_at(nodes, m, key) matches Some(n) && m <= n < nodes.len() && (key.len() > 0 ==> n
            > m),
    decreases key.len(),
{
    if key.len() > 0 {
        match child_in(nodes[m].children@, key[0]) {
            Some(c) => {
                lemma_child_in_some(nodes[m].children@, key[0], c);
                let j = choose|j: int|
                    0 <= j < nodes[m].children@.len() && #[trigger] nodes[m].children@[j] == (
                    key[0],
                    c,
                );
                assert(m < nodes[m].children@[j].1 < nodes.len());
                lemma_node_at_ge(nodes, c as int, key.skip(1));
            },
            None => {},
        }
    }
}

/// With single-parented nodes, at most one byte path leads from the root
/// to any node.
proof fn lemma_node_at_unique(nodes: Seq<Node>, k1: Seq<u8>, k2: Seq<u8>, n: int)
    requires
        nodes_wf(nodes),
        single_parent(nodes),
        node_at(nodes, 0, k1) == Some(n),
        node_at(nodes, 0, k2) == Some(n),
    ensures
        k1 == k2,
    decreases k1.len() + k2.len(),
{
    if k1.len() == 0 {
        assert(n == 0);
        if k2.len() > 0 {
            lemma_node_at_ge(nodes, 0, k2);
            assert(false);
        }
        assert(k1 =~= k2);
    } else if k2.len() == 0 {
        assert(n == 0);
        lemma_node_at_ge(nodes, 0, k1);
        assert(false);
    } else {
        lemma_node_at_unsnoc(nodes, 0, k1);
        lemma_node_at_unsnoc(nodes, 0, k2);
        let p1 = node_at(nodes, 0, k1.drop_last()).unwrap();
        let p2 = node_at(nodes, 0, k2.drop_last()).unwrap();
        lemma_node_at_ge(nodes, 0, k1.drop_last());
        lemma_node_at_ge(nodes, 0, k2.drop_last());
        assert(child_in(nodes[p1].children@, k1.last()) == Some(n as usize));
        assert(child_in(nodes[p2].children@, k2.last()) == Some(n as usize));
        lemma_child_in_some(nodes[p1].children@, k1.last(), n as usize);
        lemma_child_in_some(nodes[p2].children@, k2.last(), n as usize);
        let j1 = choose|j: int|
            0 <= j < nodes[p1].children@.len() && #[trigger] nodes[p1].children@[j] == (
            k1.last(),
            n as usize,
        );
        let j2 = choose|j: int|
            0 <= j < nodes[p2].children@.len() && #[trigger] nodes[p2].children@[j] == (
            k2.last(),
            n as usize,
        );
        assert(nodes[p1].children@[j1].1 == nodes[p2].children@[j2].1);
        assert(p1 == p2 && j1 == j2);
        assert(k1.last() == k2.last());
        lemma_node_at_unique(nodes, k1.drop_last(), k2.drop_last(), p1);
        assert(k1 =~= k1.drop_last().push(k1.last()));
        assert(k2 =~= k2.drop_last().push(k2.last()));
    }
}

/// A non-empty walk is a walk to the parent followed by one child link.
proof fn lemma_node_at_unsnoc(nodes: Seq<Node>, m: int, key: Seq<u8>)
    requires
        nodes_wf(nodes),
        key.len() > 0,
        node_at(nodes, m, key) matches Some(n),
    ensures
        node_at(nodes, m, key.drop_last()) matches Some(p) && 0 <= p < nodes.len() && child_in(
            nodes[p].children@,
            key.last(),
        ) == Some(node_at(nodes, m, key).unwrap() as usize),
{
    lemma_node_at_snoc(nodes, m, key.drop_last(), key.last());
    assert(key.drop_last().push(key.last()) =~= key);
    match node_at(nodes, m, key.drop_last()) {
        Some(p) => {
            match child_in(nodes[p].children@, key.last()) {
                Some(c) => {
                    lemma_node_at_ge(nodes, m, key.drop_last());
                    lemma_child_in_some(nodes[p].children@, key.last(), c);
                    let j = choose|j: int|
                        0 <= j < nodes[p].children@.len() && #[trigger] nodes[p].children@[j]
                            == (key.last(), c);
                    assert(p < nodes[p].children@[j].1 < nodes.len());
                },
                None => {
                    assert(false);
                },
            }
        },
        None => {
            assert(false);
        },
    }
}

/// Linking a fresh childless non-terminal node under a previously absent
/// byte changes no stored word: a walk that crosses the new link finds
/// nothing there.
proof fn lemma_lookup_new_leaf(
    nodes1: Seq<Node>,
    nodes2: Seq<Node>,
    parent: int,
    b: u8,
    fresh: usize,
    m: int,
    key: Seq<u8>,
)
    requires
        nodes_wf(nodes1),
        0 <= parent < nodes1.len(),
        fresh == nodes1.len(),
        nodes2.len() == nodes1.len() + 1,
        forall|v: int| 0 <= v < nodes1.len() && v != parent ==> nodes2[v] == nodes1[v],
        nodes2[parent].children@ == nodes1[parent].children@.push((b, fresh)),
        nodes2[parent].word_id == nodes1[parent].word_id,
        child_in(nodes1[parent].children@, b) == Option::<usize>::None,
        nodes2[fresh as int].children@.len() == 0,
        nodes2[fresh as int].word_id matches None,
        0 <= m < nodes1.len(),
    ensures
        lookup_at(nodes2, m, key) == lookup_at(nodes1, m, key),
    decreases key.len(),
{
    lemma_child_in_push(nodes1[parent].children@, b, fresh);
    if key.len() == 0 {
        assert(nodes2[m].word_id == nodes1[m].word_id);
    } else {
        if m == parent && key[0] == b {
            assert(child_in(nodes2[m].children@, key[0]) == Some(fresh));
            assert(node_at(nodes2, m, key) == node_at(nodes2, fresh as int, key.skip(1)));
            if key.skip(1).len() == 0 {
                assert(node_at(nodes2, fresh as int, key.skip(1)) == Some(fresh as int));
                assert(nodes2[fresh as int].word_id matches None);
                assert(lookup_at(nodes2, m, key) matches None);
            } else {
                assert(child_in(nodes2[fresh as int].children@, key.skip(1)[0]) == Option::<
                    usize,
                >::None);
                assert(node_at(nodes2, fresh as int, key.skip(1)) matches None);
                assert(lookup_at(nodes2, m, key) matches None);
            }
            assert(node_at(nodes1, m, key) matches None);
            assert(lookup_at(nodes1, m, key) matches None);
        } else {
            assert(child_in(nodes2[m].children@, key[0]) == child_in(
                nodes1[m].children@,
                key[0],
            ));
            match child_in(nodes1[m].children@, key[0]) {
                Some(c) => {
                    lemma_child_in_some(nodes1[m].children@, key[0], c);
                    let j = choose|j: int|
                        0 <= j < nodes1[m].children@.len() && #[trigger] nodes1[m].children@[j]
                            == (key[0], c);
                    assert(m < nodes1[m].children@[j].1 < nodes1.len());
                    lemma_lookup_new_leaf(nodes1, nodes2, parent, b, fresh, c as int, key.skip(1));
                },
                None => {},
            }
        }
    }
}

/// Walks and stored words agree wherever children and terminals agree.
proof fn lemma_lookup_frame_words(nodes1: Seq<Node>, nodes2: Seq<Node>, m: int, key: Seq<u8>)
    requires
        nodes1.len() == nodes2.len(),
        forall|v: int| 0 <= v < nodes1.len() ==> #[trigger] nodes2[v].children == nodes1[v].children,
        forall|v: int| 0 <= v < nodes1.len() ==> #[trigger] nodes2[v].word_id == nodes1[v].word_id,
    ensures
        lookup_at(nodes2, m, key) == lookup_at(nodes1, m, key),
{
    lemma_node_at_frame_eq_children(nodes1, nodes2, m, key);
    match node_at(nodes1, m, key) {
        Some(n) => {
            lemma_node_at_in_range(nodes1, m, key);
            assert(nodes2[n].word_id == nodes1[n].word_id);
        },
        None => {},
    }
}

/// A walk that succeeds ends at a node in range.
proof fn lemma_node_at_in_range(nodes: Seq<Node>, m: int, key: Seq<u8>)
    requires
        node_at(nodes, m, key) matches Some(n),
    ensures
        node_at(nodes, m, key) matches Some(n) && 0 <= n < nodes.len(),
    decreases key.len(),
{
    if key.len() > 0 {
        match child_in(nodes[m].children@, key[0]) {
            Some(c) => {
                lemma_node_at_in_range(nodes, c as int, key.skip(1));
            },
            None => {},
        }
    }
}

/// A resolved byte names an actual entry.
proof fn lemma_child_in_some(children: Seq<(u8, usize)>, b: u8, c: usize)
    requires
        child_in(children, b) == Some(c),
    ensures
        exists|j: int| 0 <= j < children.len() && children[j] == (b, c),
    decreases children.len(),
{
    if children.len() > 0 {
        if children.last().0 == b {
            assert(children[children.len() - 1] == (b, c));
        } else {
            lemma_child_in_some(children.drop_last(), b, c);
            let j = choose|j: int|
                0 <= j < children.drop_last().len() && children.drop_last()[j] == (b, c);
            assert(children[j] == (b, c));
        }
    }
}

/// A byte held by no entry has no child.
proof fn lemma_child_absent(children: Seq<(u8, usize)>, b: u8)
    requires
        forall|j: int| 0 <= j < children.len() ==> (#[trigger] children[j]).0 != b,
    ensures
        child_in(children, b) == Option::<usize>::None,
    decreases children.len(),
{
    if children.len() > 0 {
        lemma_child_absent(children.drop_last(), b);
    }
}

/// Appending a child entry resolves its byte and leaves the rest as
/// before.
proof fn lemma_child_in_push(children: Seq<(u8, usize)>, b: u8, c: usize)
    ensures
        forall|b2: u8|
            child_in(children.push((b, c)), b2) == if b2 == b {
                Some(c)
            } else {
                child_in(children, b2)
            },
{
    assert forall|b2: u8|
        child_in(children.push((b, c)), b2) == if b2 == b {
            Some(c)
        } else {
            child_in(children, b2)
        } by {
        assert(children.push((b, c)).drop_last() =~= children);
    }
}

/// A walk that succeeds keeps its result when every node it may visit
/// keeps the child links it had: links may be added, none changed.
proof fn lemma_node_at_frame(nodes1: Seq<Node>, nodes2: Seq<Node>, n: int, key: Seq<u8>)
    requires
        nodes_wf(nodes1),
        nodes2.len() >= nodes1.len(),
        forall|v: int, b: u8|
            0 <= v < nodes1.len() && (#[trigger] child_in(nodes1[v].children@, b)).is_some()
                ==> child_in(nodes2[v].children@, b) == child_in(nodes1[v].children@, b),
        node_at(nodes1, n, key).is_some(),
        0 <= n < nodes1.len(),
    ensures
        node_at(nodes2, n, key) == node_at(nodes1, n, key),
    decreases key.len(),
{
    if key.len() > 0 {
        let c = child_in(nodes1[n].children@, key[0]);
        assert(c.is_some());
        lemma_node_at_frame(nodes1, nodes2, c.unwrap() as int, key.skip(1));
    }
}

/// A walk is unchanged when every node keeps exactly its child list.
proof fn lemma_node_at_frame_eq_children(nodes1: Seq<Node>, nodes2: Seq<Node>, n: int, key: Seq<
    u8,
>)
    requires
        nodes1.len() == nodes2.len(),
        forall|v: int| 0 <= v < nodes1.len() ==> #[trigger] nodes2[v].children == nodes1[v].children,
    ensures
        node_at(nodes2, n, key) == node_at(nodes1, n, key),
    decreases key.len(),
{
    if 0 <= n < nodes1.len() && key.len() > 0 {
        match child_in(nodes1[n].children@, key[0]) {
            Some(c) => {
                lemma_node_at_frame_eq_children(nodes1, nodes2, c as int, key.skip(1));
            },
            None => {},
        }
    }
}

/// Walking `key` then one more byte equals walking the extended key.
proof fn lemma_node_at_snoc(nodes: Seq<Node>, n: int, key: Seq<u8>, b: u8)
    ensures
        node_at(nodes, n, key.push(b)) == match node_at(nodes, n, key) {
            Some(m) => match child_in(nodes[m].children@, b) {
                Some(c) => if 0 <= c < nodes.len() {
                    Some(c as int)
                } else {
                    None
                },
                None => None,
            },
            None => None,
        },
    decreases key.len(),
{
    if !(0 <= n < nodes.len()) {
    } else if key.len() == 0 {
        assert(key.push(b)[0] == b);
        assert(key.push(b).skip(1) =~= Seq::<u8>::empty());
        assert(node_at(nodes, n, key) == Some(n));
        match child_in(nodes[n].children@, b) {
            Some(c) => {
                assert(node_at(nodes, c as int, Seq::<u8>::empty()) == if 0 <= c
                    < nodes.len() {
                    Some(c as int)
                } else {
                    Option::<int>::None
                });
                assert(node_at(nodes, n, key.push(b)) == node_at(
                    nodes,
                    c as int,
                    key.push(b).skip(1),
                ));
            },
            None => {
                assert(node_at(nodes, n, key.push(b)) == Option::<int>::None);
            },
        }
    } else {
        assert(key.push(b)[0] == key[0]);
        assert(key.push(b).skip(1) =~= key.skip(1).push(b));
        match child_in(nodes[n].children@, key[0]) {
            Some(c) => {
                lemma_node_at_snoc(nodes, c as int, key.skip(1), b);
                assert(node_at(nodes, n, key) == node_at(nodes, c as int, key.skip(1)));
                assert(node_at(nodes, n, key.push(b)) == node_at(
                    nodes,
                    c as int,
                    key.skip(1).push(b),
                ));
            },
            None => {
                assert(node_at(nodes, n, key.push(b)) == Option::<int>::None);
                assert(node_at(nodes, n, key) == Option::<int>::None);
            },
        }
    }
}

} // verus!
