//! The index: a B+ tree from keys to values whose leaves form a forward
//! chain in key order.
//!
//! Routing uses `<=`: a key equal to a child's smallest key goes to that
//! child, so an entry with a key already present lands behind the entries
//! with that key.
use vstd::prelude::*;
use crate::node::{Key, Data, DataPair, NodePair, Node, InternalNode, LeafNode};
use crate::model::{
    at_depth, lemma_at_depth_height, lemma_pairs_at_depth, node_height,
    build, chain, distinct_keys, entries, first_match, flat, has_key, in_range, insert_entry,
    leaf_ids, lemma_build, lemma_flat_append, lemma_flat_one, lemma_in_range_append,
    lemma_in_range_none, lemma_node_facts, lemma_pair_ids_append, lemma_pair_ids_one,
    lemma_root_insert, lemma_route_bounds, lemma_search_leaf, lemma_wf_pairs, opt_ids, pair_ids,
    route, sorted, wf_leaf, wf_node,
};

verus! {

pub struct BPlusTree {
    cap: usize,
    node: Option<Node>,
    leaves: Vec<LeafNode>,
}

impl BPlusTree {
    /// The handles of the leaves, left to right.
    pub closed spec fn leaf_order(&self) -> Seq<usize> {
        match self.node {
            Some(n) => leaf_ids(n),
            None => seq![],
        }
    }

    /// Every entry of the tree, leaf after leaf along the chain.
    pub closed spec fn entries(&self) -> Seq<DataPair> {
        flat(self.leaf_order(), self.leaves@)
    }

    pub closed spec fn capacity(&self) -> usize {
        self.cap
    }

    pub closed spec fn leaf_count(&self) -> nat {
        self.leaf_order().len()
    }

    /// The entries of the `i`-th leaf from the left.
    pub closed spec fn leaf_entries(&self, i: int) -> Seq<DataPair> {
        self.leaves@[self.leaf_order()[i] as int].data@
    }

    /// The forward handle of the `i`-th leaf from the left.
    pub closed spec fn leaf_next(&self, i: int) -> Option<usize> {
        self.leaves@[self.leaf_order()[i] as int].next
    }

    /// The number of leaves the tree holds.
    pub closed spec fn arena_len(&self) -> nat {
        self.leaves@.len()
    }

    /// The position in `entries()` where a range scan from `min_key` starts.
    pub closed spec fn scan_start(&self, min_key: Key) -> int {
        match self.node {
            Some(n) => flat(leaf_ids(n).take(route(n, min_key)), self.leaves@).len() as int,
            None => 0,
        }
    }

    /// The number of levels above the leaves; every leaf lies this deep.
    pub closed spec fn height(&self) -> nat {
        match self.node {
            Some(n) => node_height(n),
            None => 0,
        }
    }

    /// The number of children of the root, or zero when the root is a leaf.
    pub closed spec fn root_fanout(&self) -> nat {
        match self.node {
            Some(Node::Internal(i)) => i.nodes@.len(),
            _ => 0,
        }
    }

    pub closed spec fn wf(&self) -> bool {
        &&& self.cap >= 1
        &&& match self.node {
            None => self.leaves@.len() == 0,
            Some(n) => {
                &&& wf_node(n, self.leaves@, self.cap)
                &&& leaf_ids(n).no_duplicates()
                &&& leaf_ids(n).len() == self.leaves@.len()
                &&& chain(leaf_ids(n), self.leaves@)
                &&& at_depth(n, node_height(n))
            },
        }
    }

    /// An empty tree whose leaves hold at most `cap` entries.
    pub fn new(cap: usize) -> (r: Self)
        requires
            cap >= 1,
        ensures
            r.wf(),
            r.capacity() == cap,
            r.entries() == Seq::<DataPair>::empty(),
            r.leaf_count() == 0,
    {
        BPlusTree { cap, node: None, leaves: Vec::new() }
    }

    /// Inserts `(key, data)` behind every entry whose key is at most `key`;
    /// a leaf that overflows splits, and the split may climb to the root,
    /// which then gains a level.
    #[verifier::rlimit(40)]
    pub fn insert(&mut self, key: Key, data: Data)
        requires
            old(self).wf(),
        ensures
            final(self).wf(),
            final(self).capacity() == old(self).capacity(),
            final(self).entries() == insert_entry(old(self).entries(), key, data),
            old(self).leaf_count() <= 1 && old(self).entries().len() < old(self).capacity()
                ==> final(self).leaf_count() == 1,
            old(self).leaf_count() == 1 && old(self).entries().len() == old(self).capacity() ==> {
                let half = ((old(self).capacity() + 1) / 2) as int;
                &&& final(self).leaf_count() == 2
                &&& final(self).leaf_entries(0) == final(self).entries().take(half)
                &&& final(self).leaf_entries(1) == final(self).entries().skip(half)
            },
            old(self).leaf_count() == 0 ==> final(self).height() == 0,
            final(self).height() == old(self).height() || (final(self).height() == old(
                self,
            ).height() + 1 && final(self).root_fanout() == 2),
    {
        let ghost l0 = self.leaves@;
        let ghost old_entries = self.entries();
        let ghost cap = self.cap;
        match self.node.take() {
            None => {
                let leaf = LeafNode { cap: self.cap, data: vec![DataPair::new(key, data)], next: None };
                self.leaves.push(leaf);
                self.node = Some(Node::Leaf(0));
                proof {
                    let ids = seq![0usize];
                    assert(leaf_ids(Node::Leaf(0)) =~= ids);
                    lemma_flat_one(0, self.leaves@);
                    assert(flat(Seq::<usize>::empty(), l0) =~= Seq::<DataPair>::empty());
                    assert(old_entries =~= Seq::<DataPair>::empty());
                    assert(self.entries() =~= insert_entry(old_entries, key, data));
                    assert(sorted(self.leaves@[0].data@));
                }
            },
            Some(mut root) => {
                let ghost r0 = root;
                proof {
                    lemma_node_facts(r0, l0, cap);
                    match r0 {
                        Node::Leaf(_) => {},
                        Node::Internal(_) => {},
                    }
                }
                let split = root.insert(&mut self.leaves, key, data);
                let arena_len = self.leaves.len();
                let ghost r1 = root;
                let ghost sp = split;
                let ghost ids = leaf_ids(r0);
                let ghost new_ids = leaf_ids(r1) + opt_ids(sp);
                proof {
                    assert(arena_len == self.leaves@.len());
                    lemma_root_insert(r0, r1, sp, l0, self.leaves@, key, data, cap);
                }
                match split {
                    None => {
                        self.node = Some(root);
                        proof {
                            assert(new_ids =~= leaf_ids(r1));
                            lemma_at_depth_height(r1, node_height(r0));
                        }
                    },
                    Some(sib) => {
                        let k1 = root.min_key(&self.leaves);
                        let k2 = sib.min_key(&self.leaves);
                        let mut nodes: Vec<NodePair> = Vec::new();
                        nodes.push(NodePair::new(k1, root));
                        nodes.push(NodePair::new(k2, sib));
                        let ghost ps = nodes@;
                        self.node = Some(Node::Internal(InternalNode { cap: self.cap, nodes }));
                        proof {
                            let l1 = self.leaves@;
                            lemma_node_facts(r1, l1, cap);
                            lemma_node_facts(sp.unwrap(), l1, cap);
                            assert(ps =~= seq![ps[0]] + seq![ps[1]]);
                            lemma_pair_ids_append(seq![ps[0]], seq![ps[1]]);
                            lemma_pair_ids_one(ps[0]);
                            lemma_pair_ids_one(ps[1]);
                            assert(pair_ids(ps) == new_ids);
                            assert forall|j: int| 0 <= j < ps.len() implies #[trigger] wf_node(
                                ps[j].value,
                                l1,
                                cap,
                            ) by {}
                            lemma_wf_pairs(ps, l1, cap);
                            let h = node_height(r0);
                            lemma_at_depth_height(r1, h);
                            assert forall|j: int| 0 <= j < ps.len() implies #[trigger] at_depth(
                                ps[j].value,
                                h,
                            ) by {}
                            lemma_pairs_at_depth(ps, h);
                        }
                    },
                }
                proof {
                    assert(self.leaf_order() == new_ids);
                }
            },
        }
    }

    /// The value stored under `key`: the first entry with that key in the
    /// leaf the key routes to.
    pub fn search(&self, key: Key) -> (r: Option<&Data>)
        requires
            self.wf(),
        ensures
            r is Some <==> has_key(self.entries(), key),
            r matches Some(v) ==> self.entries().contains(DataPair { key, value: *v }),
            r matches Some(v) ==> first_match(
                self.entries().skip(self.scan_start(key)),
                key,
                *v,
            ),
    {
        match &self.node {
            None => {
                proof {
                    assert(flat(Seq::<usize>::empty(), self.leaves@) =~= Seq::<DataPair>::empty());
                }
                None
            },
            Some(n) => {
                proof {
                    lemma_search_leaf(*n, self.leaves@, self.cap, key);
                    let d = self.leaves@[leaf_ids(*n)[route(*n, key)] as int].data@;
                    assert forall|v: Data| first_match(d, key, v) implies self.entries().contains(
                        DataPair { key, value: v },
                    ) by {
                        let i = choose|i: int|
                            0 <= i < d.len() && d[i] == DataPair { key, value: v } && forall|j: int|
                                0 <= j < i ==> (#[trigger] d[j]).key != key;
                        assert(d.contains(d[i]));
                    }
                    let l = self.leaves@;
                    let ids = leaf_ids(*n);
                    let p = route(*n, key);
                    lemma_route_bounds(*n, l, self.cap, key);
                    let pre = flat(ids.take(p), l);
                    let post = flat(ids.skip(p + 1), l);
                    let rest = self.entries().skip(self.scan_start(key));
                    assert(rest =~= d + post);
                    assert forall|v: Data| first_match(d, key, v) implies first_match(rest, key, v) by {
                        let i = choose|i: int|
                            0 <= i < d.len() && d[i] == DataPair { key, value: v } && forall|j: int|
                                0 <= j < i ==> (#[trigger] d[j]).key != key;
                        assert(rest[i] == d[i]);
                        assert forall|j: int| 0 <= j < i implies (#[trigger] rest[j]).key != key by {
                            assert(rest[j] == d[j]);
                        }
                    }
                    match *n {
                        Node::Leaf(_) => {},
                        Node::Internal(_) => {},
                    }
                }
                n.search(&self.leaves, key)
            },
        }
    }

    /// Every entry before the start of a scan from `min_key` has a key of at
    /// most `min_key`.
    proof fn lemma_scan_start(&self, min_key: Key)
        requires
            self.wf(),
        ensures
            0 <= self.scan_start(min_key) <= self.entries().len(),
            forall|i: int|
                0 <= i < self.scan_start(min_key) ==> (#[trigger] self.entries()[i]).key <= min_key,
    {
        match self.node {
            None => {},
            Some(n) => {
                let l = self.leaves@;
                let ids = leaf_ids(n);
                let p = route(n, min_key);
                lemma_route_bounds(n, l, self.cap, min_key);
                let pre = flat(ids.take(p), l);
                assert(ids =~= ids.take(p) + ids.skip(p));
                lemma_flat_append(ids.take(p), ids.skip(p), l);
                let all = self.entries();
                assert(all == pre + flat(ids.skip(p), l));
                assert forall|i: int| 0 <= i < pre.len() implies (#[trigger] all[i]).key
                    <= min_key by {
                    assert(all[i] == pre[i]);
                }
            },
        }
    }

    /// The values whose keys lie in `[min_key, max_key]`, in key order: the
    /// scan starts at the leaf that `min_key` routes to and follows the leaf
    /// chain until a leaf holds a key above `max_key`.
    pub fn search_range(&self, min_key: Key, max_key: Key) -> (r: Vec<Data>)
        requires
            self.wf(),
        ensures
            min_key > max_key ==> r@ == Seq::<Data>::empty(),
            0 <= self.scan_start(min_key) <= self.entries().len(),
            forall|i: int|
                0 <= i < self.scan_start(min_key) ==> (#[trigger] self.entries()[i]).key <= min_key,
            min_key <= max_key ==> r@ == in_range(
                self.entries().skip(self.scan_start(min_key)),
                min_key,
                max_key,
            ),
            distinct_keys(self.entries()) ==> r@ == in_range(self.entries(), min_key, max_key),
    {
        proof {
            self.lemma_scan_start(min_key);
            if min_key > max_key {
                lemma_in_range_none(self.entries(), min_key, max_key);
            }
        }
        match &self.node {
            None => {
                proof {
                    assert(flat(Seq::<usize>::empty(), self.leaves@) =~= Seq::<DataPair>::empty());
                    assert(self.entries().skip(0) =~= self.entries());
                }
                Vec::new()
            },
            Some(n) => {
                let ghost ids = leaf_ids(*n);
                let ghost l = self.leaves@;
                let ghost p = route(*n, min_key);
                proof {
                    lemma_route_bounds(*n, l, self.cap, min_key);
                    lemma_node_facts(*n, l, self.cap);
                    match *n {
                        Node::Leaf(_) => {},
                        Node::Internal(_) => {},
                    }
                    assert(ids.subrange(0, ids.len() as int) =~= ids);
                    assert(ids.skip(0 + p + 1) =~= ids.skip(p + 1));
                    assert(ids.skip(0 + p) =~= ids.skip(p));
                }
                let r = n.search_range(&self.leaves, min_key, max_key, Ghost(ids), Ghost(0));
                proof {
                    let pre = flat(ids.take(p), l);
                    let d = l[ids[p] as int].data@;
                    let post = flat(ids.skip(p + 1), l);
                    assert(ids =~= ids.take(p) + ids.skip(p));
                    lemma_flat_append(ids.take(p), ids.skip(p), l);
                    let all = self.entries();
                    assert(all.skip(pre.len() as int) =~= flat(ids.skip(p), l));
                    assert forall|i: int| 0 <= i < pre.len() implies (#[trigger] all[i]).key
                        <= min_key by {
                        assert(all[i] == pre[i]);
                    }
                    if distinct_keys(all) && min_key <= max_key {
                        assert forall|i: int| 0 <= i < pre.len() implies !(min_key <= (
                        #[trigger] pre[i]).key <= max_key) by {
                            assert(all[i] == pre[i]);
                            assert(p > 0) by {
                                if p == 0 {
                                    assert(ids.take(0) =~= Seq::<usize>::empty());
                                    assert(flat(ids.take(0), l) =~= Seq::<DataPair>::empty());
                                }
                            }
                            assert(wf_leaf(l[ids[p] as int], self.cap));
                            assert(all[pre.len() as int] == d[0]);
                        }
                        lemma_in_range_none(pre, min_key, max_key);
                        lemma_in_range_append(pre, flat(ids.skip(p), l), min_key, max_key);
                        assert(in_range(pre, min_key, max_key) + in_range(flat(ids.skip(p), l), min_key, max_key)
                            =~= in_range(flat(ids.skip(p), l), min_key, max_key));
                    }
                }
                r
            },
        }
    }
}

impl BPlusTree {
    /// The keys of every leaf, read by following the forward handles from
    /// the leftmost leaf.
    pub fn leaf_keys(&self) -> (r: Vec<Vec<Key>>)
        requires
            self.wf(),
        ensures
            r@.len() == self.leaf_count(),
            forall|i: int|
                0 <= i < r@.len() ==> (#[trigger] r@[i])@ == self.leaf_entries(i).map_values(
                    |e: DataPair| e.key,
                ),
    {
        let mut r: Vec<Vec<Key>> = Vec::new();
        let ghost ids = self.leaf_order();
        let ghost l = self.leaves@;
        let mut cur: Option<usize> = match &self.node {
            None => None,
            Some(n) => {
                proof {
                    lemma_node_facts(*n, l, self.cap);
                    match *n {
                        Node::Leaf(_) => {},
                        Node::Internal(_) => {},
                    }
                }
                Some(n.first_leaf(&self.leaves))
            },
        };
        proof {
            if self.node is Some {
                lemma_node_facts(self.node->0, l, self.cap);
            }
        }
        let ghost mut q: int = 0;
        while cur.is_some()
            invariant
                self.wf(),
                ids == self.leaf_order(),
                l == self.leaves@,
                0 <= q <= ids.len(),
                forall|i: int| 0 <= i < ids.len() ==> #[trigger] ids[i] < l.len(),
                cur == if q < ids.len() {
                    Some(ids[q])
                } else {
                    None::<usize>
                },
                r@.len() == q,
                forall|i: int|
                    0 <= i < q ==> (#[trigger] r@[i])@ == self.leaf_entries(i).map_values(
                        |e: DataPair| e.key,
                    ),
            decreases ids.len() - q,
        {
            let h = cur.unwrap();
            let leaf = &self.leaves[h];
            let mut keys: Vec<Key> = Vec::new();
            let mut j: usize = 0;
            while j < leaf.data.len()
                invariant
                    j <= leaf.data@.len(),
                    keys@ == leaf.data@.take(j as int).map_values(|e: DataPair| e.key),
                decreases leaf.data@.len() - j,
            {
                keys.push(leaf.data[j].key);
                proof {
                    assert(leaf.data@.take(j + 1).map_values(|e: DataPair| e.key) =~= leaf.data@.take(
                        j as int,
                    ).map_values(|e: DataPair| e.key).push(leaf.data@[j as int].key));
                }
                j = j + 1;
            }
            proof {
                assert(leaf.data@.take(j as int) =~= leaf.data@);
                if q < ids.len() - 1 {
                    assert(l[ids[q] as int].next == Some(ids[q + 1]));
                }
            }
            r.push(keys);
            cur = leaf.next;
            proof {
                assert forall|i: int| 0 <= i < q + 1 implies (#[trigger] r@[i])@
                    == self.leaf_entries(i).map_values(|e: DataPair| e.key) by {}
                q = q + 1;
            }
        }
        proof {
            if q < ids.len() {
                assert(cur is Some);
            }
        }
        r
    }
}

/// Round trip: after pairs with distinct keys are inserted in any order into
/// an empty tree, the entries hold every pair, and each key only with its own
/// value, so a search for a key finds the value inserted with it.
pub proof fn lemma_round_trip(pairs: Seq<DataPair>)
    requires
        distinct_keys(pairs),
    ensures
        forall|i: int| 0 <= i < pairs.len() ==> build(pairs).contains(#[trigger] pairs[i]),
        forall|i: int, x: DataPair|
            0 <= i < pairs.len() && #[trigger] build(pairs).contains(x) && x.key == (
            #[trigger] pairs[i]).key ==> x.value == pairs[i].value,
{
    lemma_build(pairs);
    let b = build(pairs);
    assert forall|i: int| 0 <= i < pairs.len() implies b.contains(#[trigger] pairs[i]) by {
        assert(pairs.contains(pairs[i]));
    }
    assert forall|i: int, x: DataPair|
        0 <= i < pairs.len() && #[trigger] b.contains(x) && x.key == (#[trigger] pairs[i]).key implies x.value
        == pairs[i].value by {
        assert(pairs.contains(x));
        let q = choose|q: int| 0 <= q < pairs.len() && pairs[q] == x;
        if q != i {
            if q < i {
                assert(pairs[q].key != pairs[i].key);
            } else {
                assert(pairs[i].key != pairs[q].key);
            }
        }
    }
}

/// Sorted: whatever was inserted, the entries along the leaf chain are in
/// non-decreasing key order.
pub proof fn lemma_sorted(t: &BPlusTree)
    requires
        t.wf(),
    ensures
        sorted(t.entries()),
{
    if let Some(n) = t.node {
        lemma_node_facts(n, t.leaves@, t.cap);
    } else {
        assert(flat(Seq::<usize>::empty(), t.leaves@) =~= Seq::<DataPair>::empty());
    }
}

/// Leaf chain: starting at the leftmost leaf and following the forward
/// handles visits every leaf of the tree once, left to right, and ends at
/// the rightmost leaf, whose handle is empty.
pub proof fn lemma_leaf_chain(t: &BPlusTree)
    requires
        t.wf(),
    ensures
        t.leaf_order().no_duplicates(),
        t.leaf_count() == t.arena_len(),
        forall|i: int|
            0 <= i < t.leaf_count() - 1 ==> #[trigger] t.leaf_next(i) == Some(t.leaf_order()[i + 1]),
        t.leaf_count() > 0 ==> t.leaf_next(t.leaf_count() - 1) is None,
{
    let ids = t.leaf_order();
    assert forall|i: int| 0 <= i < t.leaf_count() - 1 implies #[trigger] t.leaf_next(i) == Some(
        ids[i + 1],
    ) by {
        assert(t.leaves@[ids[i] as int].next == Some(ids[i + 1]));
    }
}

} // verus!
