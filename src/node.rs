//! Nodes of the tree: internal nodes own their children, leaves live in an
//! arena and are linked left to right by handles into that arena.
use vstd::prelude::*;
use crate::model::{
    at_depth, lemma_at_depth_height, lemma_depth_replace, lemma_pairs_at_depth, node_height,
    chain_vals, pairs_at_depth, holds_above, lemma_in_range_lower, scan_end,
    cap_of, chain, child_index, entries, first_match, flat, has_key, in_range, insert_entry,
    inserted, leaf_ids, lemma_child_bounds, lemma_count_le_at, lemma_flat_append, lemma_flat_at,
    lemma_flat_one, lemma_in_range_append, lemma_in_range_none, lemma_insert_child,
    lemma_insert_child_handles, lemma_insert_entry_sorted, lemma_node_facts,
    lemma_pair_ids_split, lemma_route_child, lemma_sorted_sub, lemma_split_pairs,
    lemma_wf_pairs, min_key_of, opt_ids, pair_ids, replacement, route, sorted, wf_leaf, wf_node,
};

verus! {

pub type Key = usize;

pub type Data = usize;

/// One entry of a leaf.
pub struct DataPair {
    pub key: Key,
    pub value: Data,
}

/// One child of an internal node, with the smallest key it holds.
pub struct NodePair {
    pub key: Key,
    pub value: Node,
}

pub enum Node {
    Internal(InternalNode),
    /// A handle into the leaf arena.
    Leaf(usize),
}

pub struct InternalNode {
    pub cap: usize,
    pub nodes: Vec<NodePair>,
}

pub struct LeafNode {
    pub cap: usize,
    pub data: Vec<DataPair>,
    /// The handle of the next leaf in key order.
    pub next: Option<usize>,
}


impl DataPair {
    pub fn new(key: Key, value: Data) -> (r: Self)
        ensures
            r == (DataPair { key, value }),
    {
        DataPair { key, value }
    }
}

impl NodePair {
    pub fn new(key: Key, value: Node) -> (r: Self)
        ensures
            r == (NodePair { key, value }),
    {
        NodePair { key, value }
    }
}

impl LeafNode {
    /// Whether the leaf holds more entries than its capacity.
    pub fn is_full(&self) -> (r: bool)
        ensures
            r == (self.data@.len() > self.cap),
    {
        self.data.len() > self.cap
    }

    /// Moves the upper half of the entries into a new leaf, which takes over
    /// this leaf's forward handle; this leaf then points at `new_id`.
    pub fn split(&mut self, new_id: usize) -> (r: LeafNode)
        ensures
            final(self).data@ == old(self).data@.take((old(self).data@.len() / 2) as int),
            r.data@ == old(self).data@.skip((old(self).data@.len() / 2) as int),
            r.next == old(self).next,
            final(self).next == Some(new_id),
            r.cap == old(self).cap,
            final(self).cap == old(self).cap,
    {
        let mid = self.data.len() / 2;
        let right = self.data.split_off(mid);
        let new_next = LeafNode { cap: self.cap, data: right, next: self.next };
        self.next = Some(new_id);
        proof {
            assert(final(self).data@ =~= old(self).data@.take((old(self).data@.len() / 2) as int));
            assert(new_next.data@ =~= old(self).data@.skip((old(self).data@.len() / 2) as int));
        }
        new_next
    }

    /// Inserts the entry behind every entry with a key of at most `key`; when
    /// the leaf overflows, splits it and returns the new right sibling.
    pub fn insert(&mut self, key: Key, data: Data, new_id: usize) -> (r: Option<LeafNode>)
        requires
            old(self).cap >= 1,
            wf_leaf(*old(self), old(self).cap),
        ensures
            ({
                let s = insert_entry(old(self).data@, key, data);
                match r {
                    None => {
                        &&& final(self).data@ == s
                        &&& final(self).next == old(self).next
                    },
                    Some(sib) => {
                        &&& s.len() == old(self).cap + 1
                        &&& final(self).data@ == s.take((s.len() / 2) as int)
                        &&& sib.data@ == s.skip((s.len() / 2) as int)
                        &&& final(self).next == Some(new_id)
                        &&& sib.next == old(self).next
                        &&& wf_leaf(sib, old(self).cap)
                    },
                }
            }),
            wf_leaf(*final(self), old(self).cap),
    {
        let ghost s0 = self.data@;
        let mut i: usize = 0;
        while i < self.data.len() && self.data[i].key <= key
            invariant
                self.data@ == s0,
                i <= s0.len(),
                forall|j: int| 0 <= j < i ==> s0[j].key <= key,
            decreases s0.len() - i,
        {
            i = i + 1;
        }
        proof {
            assert forall|j: int| i <= j < s0.len() implies s0[j].key > key by {
                assert(s0[i as int].key > key);
                assert(s0[i as int].key <= s0[j].key);
            }
            lemma_count_le_at(s0, key, i as int);
            lemma_insert_entry_sorted(s0, key, data);
        }
        self.data.insert(i, DataPair::new(key, data));
        proof {
            assert(self.data@ =~= insert_entry(s0, key, data));
        }
        if self.is_full() {
            let sib = self.split(new_id);
            proof {
                let s = insert_entry(s0, key, data);
                lemma_sorted_sub(s.take((s.len() / 2) as int), s.skip((s.len() / 2) as int));
                assert(s =~= s.take((s.len() / 2) as int) + s.skip((s.len() / 2) as int));
            }
            Some(sib)
        } else {
            None
        }
    }

    /// The value of the first entry with key `key`.
    pub fn search(&self, key: Key) -> (r: Option<&Data>)
        ensures
            r is Some <==> has_key(self.data@, key),
            r matches Some(v) ==> first_match(self.data@, key, *v),
    {
        let mut i: usize = 0;
        while i < self.data.len()
            invariant
                i <= self.data@.len(),
                forall|j: int| 0 <= j < i ==> self.data@[j].key != key,
            decreases self.data@.len() - i,
        {
            if self.data[i].key == key {
                proof {
                    assert(self.data@[i as int] == DataPair { key, value: self.data@[i as int].value });
                }
                return Some(&self.data[i].value);
            }
            i = i + 1;
        }
        None
    }
}

impl InternalNode {
    /// Whether the node holds more children than its capacity allows; the
    /// first child's key is a placeholder, hence the one extra.
    pub fn is_full(&self) -> (r: bool)
        ensures
            r == (self.nodes@.len() > self.cap + 1),
    {
        self.nodes.len() > self.cap && self.nodes.len() - self.cap > 1
    }

    /// The routing rule: the index of the last child whose key is at most
    /// `key`, or of the first child when there is none.
    pub fn find_node(&self, key: Key) -> (r: usize)
        requires
            self.nodes@.len() >= 1,
        ensures
            r == child_index(self.nodes@, key),
    {
        let mut r: usize = 0;
        let mut i: usize = 0;
        while i < self.nodes.len()
            invariant
                i <= self.nodes@.len(),
                r == child_index(self.nodes@.take(i as int), key),
            decreases self.nodes@.len() - i,
        {
            proof {
                assert(self.nodes@.take(i + 1).drop_last() =~= self.nodes@.take(i as int));
                assert(self.nodes@.take(i + 1).last() == self.nodes@[i as int]);
            }
            if i > 0 && self.nodes[i].key <= key {
                r = i;
            }
            i = i + 1;
        }
        proof {
            assert(self.nodes@.take(i as int) =~= self.nodes@);
        }
        r
    }

    /// Moves the upper half of the children into a new internal node.
    pub fn split(&mut self) -> (r: Node)
        ensures
            final(self).cap == old(self).cap,
            final(self).nodes@ == old(self).nodes@.take((old(self).nodes@.len() / 2) as int),
            r matches Node::Internal(ri) && ri.cap == old(self).cap && ri.nodes@ == old(
                self,
            ).nodes@.skip((old(self).nodes@.len() / 2) as int),
    {
        let mid = self.nodes.len() / 2;
        let right = self.nodes.split_off(mid);
        proof {
            assert(right@ =~= old(self).nodes@.skip((old(self).nodes@.len() / 2) as int));
            assert(self.nodes@ =~= old(self).nodes@.take((old(self).nodes@.len() / 2) as int));
        }
        Node::Internal(InternalNode { cap: self.cap, nodes: right })
    }

    /// Inserts the entry into the child that `key` routes to, takes in the
    /// sibling that child may hand back, and splits itself on overflow.
    #[verifier::rlimit(60)]
    pub fn insert(&mut self, leaves: &mut Vec<LeafNode>, key: Key, data: Data) -> (r: Option<Node>)
        requires
            old(self).cap >= 1,
            wf_node(Node::Internal(*old(self)), old(leaves)@, old(self).cap),
            leaf_ids(Node::Internal(*old(self))).no_duplicates(),
        ensures
            final(self).cap == old(self).cap,
            r matches Some(s) ==> s is Internal,
            ({
                let ps = old(self).nodes@;
                let c = child_index(ps, key);
                let rest = match r {
                    Some(Node::Internal(ri)) => ri.nodes@,
                    _ => Seq::<NodePair>::empty(),
                };
                let all = final(self).nodes@ + rest;
                &&& all.len() == ps.len() || all.len() == ps.len() + 1
                &&& all.take(c) == ps.take(c)
                &&& all.skip(all.len() - (ps.len() - c - 1)) == ps.skip(c + 1)
                &&& r is Some <==> all.len() > old(self).cap + 1
                &&& r is Some ==> final(self).nodes@ == all.take((all.len() / 2) as int)
            }),
            inserted(
                Node::Internal(*old(self)),
                Node::Internal(*final(self)),
                r,
                old(leaves)@,
                final(leaves)@,
                key,
                data,
                old(self).cap,
            ),
            at_depth(Node::Internal(*old(self)), node_height(Node::Internal(*old(self)))) ==> {
                let h = node_height(Node::Internal(*old(self)));
                &&& at_depth(Node::Internal(*final(self)), h)
                &&& r matches Some(s) ==> at_depth(s, h)
            },
        decreases *old(self), 0int,
    {
        let ghost i0 = *self;
        let ghost ps = self.nodes@;
        let ghost l0 = leaves@;
        let ghost cap = self.cap;
        proof {
            lemma_child_bounds(i0, l0, cap, key);
        }
        let c = self.find_node(key);
        proof {
            lemma_pair_ids_split(ps, c as int);
            let ids = leaf_ids(Node::Internal(i0));
            let a = pair_ids(ps.take(c as int));
            let cs = leaf_ids(ps[c as int].value);
            assert forall|x: int, y: int| 0 <= x < y < cs.len() implies cs[x] != cs[y] by {
                assert(ids[a.len() + x] == cs[x]);
                assert(ids[a.len() + y] == cs[y]);
            }
            assert(cs.no_duplicates());
            match ps[c as int].value {
                Node::Leaf(h) => {},
                Node::Internal(ci) => {},
            }
        }
        let mut pair = self.nodes.remove(c);
        let split = pair.value.insert(leaves, key, data);
        let ghost child2 = pair.value;
        let ghost sp = split;
        let m = pair.value.min_key(leaves);
        pair.key = m;
        self.nodes.insert(c, pair);
        match split {
            Some(sib) => {
                let k2 = sib.min_key(leaves);
                let len = self.nodes.len();
                assert(c < len);
                self.nodes.insert(c + 1, NodePair::new(k2, sib));
            },
            None => {},
        }
        proof {
            lemma_insert_child(i0, child2, sp, l0, leaves@, key, data, cap);
            lemma_insert_child_handles(i0, child2, sp, l0, leaves@, key, data, cap);
            let ps1 = ps.take(c as int) + replacement(child2, sp, leaves@) + ps.skip(c + 1);
            assert(self.nodes@ =~= ps1);
            assert(pair_ids(ps1) == leaf_ids(Node::Internal(*self)));
            assert(ps1.take(c as int) =~= ps.take(c as int));
            assert(ps1.skip(ps1.len() - (ps.len() - c - 1)) =~= ps.skip(c + 1));
            let h = node_height(Node::Internal(i0));
            if at_depth(Node::Internal(i0), h) {
                let hc = (h - 1) as nat;
                lemma_pairs_at_depth(ps, hc);
                assert(at_depth(ps[c as int].value, hc));
                lemma_at_depth_height(ps[c as int].value, hc);
                lemma_depth_replace(ps, c as int, child2, sp, leaves@, hc);
                assert(pairs_at_depth(ps1.subrange(0, ps1.len() as int), hc));
                assert(ps1.subrange(0, ps1.len() as int) =~= ps1);
            }
        }
        if self.is_full() {
            let ghost ps1 = self.nodes@;
            let right = self.split();
            proof {
                let mid = (ps1.len() / 2) as int;
                lemma_split_pairs(ps1, mid, leaves@, cap);
                assert(leaf_ids(Node::Internal(*self)) + opt_ids(Some(right)) == pair_ids(ps1));
                assert(self.nodes@ + ps1.skip(mid) =~= ps1);
                let h = node_height(Node::Internal(i0));
                if at_depth(Node::Internal(i0), h) {
                    let hc = (h - 1) as nat;
                    assert(pairs_at_depth(ps1.subrange(0, mid), hc));
                    assert(pairs_at_depth(ps1.subrange(mid, ps1.len() as int), hc));
                    assert(ps1.subrange(0, mid) =~= self.nodes@);
                    assert(ps1.subrange(mid, ps1.len() as int) =~= ps1.skip(mid));
                }
            }
            Some(right)
        } else {
            proof {
                assert(self.nodes@ + Seq::<NodePair>::empty() =~= self.nodes@);
            }
            None
        }
    }

    /// Searches the child that `key` routes to.
    pub fn search<'a>(&self, leaves: &'a Vec<LeafNode>, key: Key) -> (r: Option<&'a Data>)
        requires
            wf_node(Node::Internal(*self), leaves@, self.cap),
        ensures
            ({
                let d = leaves@[leaf_ids(Node::Internal(*self))[route(
                    Node::Internal(*self),
                    key,
                )] as int].data@;
                &&& r is Some <==> has_key(d, key)
                &&& r matches Some(v) ==> first_match(d, key, *v)
            }),
        decreases *self, 0int,
    {
        proof {
            lemma_route_child(*self, leaves@, self.cap, key);
        }
        let c = self.find_node(key);
        self.nodes[c].value.search(leaves, key)
    }

    /// Scans from the child that `min_key` routes to; see `Node::search_range`.
    pub fn search_range(
        &self,
        leaves: &Vec<LeafNode>,
        min_key: Key,
        max_key: Key,
        Ghost(ids): Ghost<Seq<usize>>,
        Ghost(off): Ghost<int>,
    ) -> (r: Vec<Data>)
        requires
            min_key <= max_key,
            wf_node(Node::Internal(*self), leaves@, self.cap),
            0 <= off,
            off + leaf_ids(Node::Internal(*self)).len() <= ids.len(),
            ids.subrange(off, off + leaf_ids(Node::Internal(*self)).len()) == leaf_ids(
                Node::Internal(*self),
            ),
            chain(ids, leaves@),
            forall|i: int| 0 <= i < ids.len() ==> #[trigger] ids[i] < leaves@.len(),
            sorted(flat(ids, leaves@)),
            forall|i: int|
                0 <= i < flat(ids.skip(off + route(Node::Internal(*self), min_key) + 1), leaves@).len()
                    ==> (#[trigger] flat(
                    ids.skip(off + route(Node::Internal(*self), min_key) + 1),
                    leaves@,
                )[i]).key >= min_key,
        ensures
            r@ == in_range(
                flat(ids.skip(off + route(Node::Internal(*self), min_key)), leaves@),
                min_key,
                max_key,
            ),
        decreases *self, 0int,
    {
        proof {
            lemma_route_child(*self, leaves@, self.cap, min_key);
        }
        let c = self.find_node(min_key);
        let ghost ps = self.nodes@;
        let ghost child = ps[c as int].value;
        let ghost a = pair_ids(ps.take(c as int));
        let ghost cs = leaf_ids(child);
        let ghost off2 = off + a.len();
        proof {
            lemma_pair_ids_split(ps, c as int);
            let all = leaf_ids(Node::Internal(*self));
            assert(all == a + cs + pair_ids(ps.skip(c + 1)));
            assert(route(Node::Internal(*self), min_key) == a.len() + route(child, min_key));
            assert(off2 + route(child, min_key) == off + route(Node::Internal(*self), min_key));
            assert(ids.skip(off2 + route(child, min_key) + 1) == ids.skip(
                off + route(Node::Internal(*self), min_key) + 1,
            ));
            assert(ids.skip(off2 + route(child, min_key)) == ids.skip(
                off + route(Node::Internal(*self), min_key),
            ));
            assert(ids.subrange(off2, off2 + cs.len()) =~= cs) by {
                assert forall|i: int| 0 <= i < cs.len() implies ids.subrange(off2, off2 + cs.len())[i]
                    == cs[i] by {
                    assert(ids.subrange(off, off + all.len())[a.len() + i] == all[a.len() + i]);
                }
            }
        }
        self.nodes[c].value.search_range(leaves, min_key, max_key, Ghost(ids), Ghost(off2))
    }
}

impl Node {
    /// The smallest key under the node.
    pub fn min_key(&self, leaves: &Vec<LeafNode>) -> (r: Key)
        requires
            wf_node(*self, leaves@, cap_of(*self, leaves@)),
        ensures
            r == min_key_of(*self, leaves@),
    {
        match self {
            Node::Internal(internal) => internal.nodes[0].key,
            Node::Leaf(h) => leaves[*h].data[0].key,
        }
    }

    /// Inserts the entry into the leaf that `key` routes to; returns the new
    /// right sibling when the node had to split.
    pub fn insert(&mut self, leaves: &mut Vec<LeafNode>, key: Key, data: Data) -> (r: Option<Node>)
        requires
            cap_of(*old(self), old(leaves)@) >= 1,
            wf_node(*old(self), old(leaves)@, cap_of(*old(self), old(leaves)@)),
            leaf_ids(*old(self)).no_duplicates(),
        ensures
            inserted(
                *old(self),
                *final(self),
                r,
                old(leaves)@,
                final(leaves)@,
                key,
                data,
                cap_of(*old(self), old(leaves)@),
            ),
            r matches Some(s) ==> (s is Leaf <==> (*old(self)) is Leaf),
            at_depth(*old(self), node_height(*old(self))) ==> {
                let h = node_height(*old(self));
                &&& at_depth(*final(self), h)
                &&& r matches Some(s) ==> at_depth(s, h)
            },
        decreases *old(self), 1int,
    {
        match self {
            Node::Internal(internal) => {
                let ghost i0 = *internal;
                let r = internal.insert(leaves, key, data);
                proof {
                    let n0 = Node::Internal(i0);
                    let e0 = entries(n0, old(leaves)@);
                    assert(flat(leaf_ids(Node::Internal(*internal)) + opt_ids(r), leaves@)
                        == insert_entry(e0, key, data));
                }
                r
            },
            Node::Leaf(h) => {
                let h = *h;
                let ghost l0 = leaves@;
                let new_id = leaves.len();
                let split = leaves[h].insert(key, data, new_id);
                proof {
                    lemma_flat_one(h, l0);
                    lemma_flat_one(h, leaves@);
                }
                match split {
                    Some(sib) => {
                        leaves.push(sib);
                        proof {
                            let ids2 = seq![h] + seq![new_id];
                            lemma_flat_append(seq![h], seq![new_id], leaves@);
                            lemma_flat_one(new_id, leaves@);
                            lemma_flat_one(h, leaves@);
                            let s = insert_entry(l0[h as int].data@, key, data);
                            lemma_insert_entry_sorted(l0[h as int].data@, key, data);
                            assert(s =~= s.take((s.len() / 2) as int) + s.skip((s.len() / 2) as int));
                            assert(ids2 =~= seq![h].insert(1, new_id));
                        }
                        Some(Node::Leaf(new_id))
                    },
                    None => {
                        proof {
                            assert(seq![h] + opt_ids(None) =~= seq![h]);
                        }
                        None
                    },
                }
            },
        }
    }

    /// Searches the leaf that `key` routes to.
    pub fn search<'a>(&self, leaves: &'a Vec<LeafNode>, key: Key) -> (r: Option<&'a Data>)
        requires
            wf_node(*self, leaves@, cap_of(*self, leaves@)),
        ensures
            ({
                let d = leaves@[leaf_ids(*self)[route(*self, key)] as int].data@;
                &&& r is Some <==> has_key(d, key)
                &&& r matches Some(v) ==> first_match(d, key, *v)
            }),
        decreases *self, 1int,
    {
        match self {
            Node::Internal(internal) => internal.search(leaves, key),
            Node::Leaf(h) => leaves[*h].search(key),
        }
    }

    /// The values with keys in `[min_key, max_key]`, read from the leaf that
    /// `min_key` routes to onward along the leaf chain `ids`, in which the
    /// leaves under this node start at position `off`.
    pub fn search_range(
        &self,
        leaves: &Vec<LeafNode>,
        min_key: Key,
        max_key: Key,
        Ghost(ids): Ghost<Seq<usize>>,
        Ghost(off): Ghost<int>,
    ) -> (r: Vec<Data>)
        requires
            wf_node(*self, leaves@, cap_of(*self, leaves@)),
            0 <= off,
            off + leaf_ids(*self).len() <= ids.len(),
            ids.subrange(off, off + leaf_ids(*self).len()) == leaf_ids(*self),
            chain(ids, leaves@),
            forall|i: int| 0 <= i < ids.len() ==> #[trigger] ids[i] < leaves@.len(),
            sorted(flat(ids, leaves@)),
            forall|i: int|
                0 <= i < flat(ids.skip(off + route(*self, min_key) + 1), leaves@).len() ==> (
                #[trigger] flat(ids.skip(off + route(*self, min_key) + 1), leaves@)[i]).key
                    >= min_key,
        ensures
            min_key > max_key ==> r@ == Seq::<Data>::empty(),
            min_key <= max_key ==> r@ == in_range(
                flat(ids.skip(off + route(*self, min_key)), leaves@),
                min_key,
                max_key,
            ),
        decreases *self, 1int,
    {
        if min_key > max_key {
            return Vec::new();
        }
        match self {
            Node::Internal(internal) => internal.search_range(
                leaves,
                min_key,
                max_key,
                Ghost(ids),
                Ghost(off),
            ),
            Node::Leaf(h) => {
                proof {
                    assert(leaf_ids(*self) =~= seq![*h]);
                    assert(ids[off] == ids.subrange(off, off + 1)[0]);
                    assert(route(*self, min_key) == 0);
                    assert(ids.skip(off + route(*self, min_key) + 1) == ids.skip(off + 1));
                    assert(ids.skip(off + route(*self, min_key)) == ids.skip(off));
                }
                leaves[*h].search_range(leaves, min_key, max_key, Ghost(ids), Ghost(off))
            },
        }
    }

    /// The handle of the leftmost leaf under the node.
    pub fn first_leaf(&self, leaves: &Vec<LeafNode>) -> (r: usize)
        requires
            wf_node(*self, leaves@, cap_of(*self, leaves@)),
        ensures
            r == leaf_ids(*self)[0],
        decreases *self,
    {
        match self {
            Node::Internal(internal) => {
                proof {
                    let ps = internal.nodes@;
                    lemma_wf_pairs(ps, leaves@, internal.cap);
                    assert(wf_node(ps[0].value, leaves@, internal.cap));
                    lemma_pair_ids_split(ps, 0);
                    assert(ps.take(0) =~= Seq::<NodePair>::empty());
                    assert(pair_ids(ps.take(0)) =~= Seq::<usize>::empty());
                    lemma_node_facts(ps[0].value, leaves@, internal.cap);
                    match ps[0].value {
                        Node::Leaf(_) => {},
                        Node::Internal(_) => {},
                    }
                }
                internal.nodes[0].value.first_leaf(leaves)
            },
            Node::Leaf(h) => *h,
        }
    }
}

impl LeafNode {
    /// Collects, in key order, the values with keys in `[min_key, max_key]`
    /// from this leaf, then follows the forward handles and collects the
    /// values with keys of at most `max_key` from each next leaf; the first
    /// leaf that holds a key above `max_key` is the last one read. `ids` is
    /// the chain and this leaf its entry `p`. When the chain is sorted and no
    /// key after this leaf is below `min_key`, this is every value with a key
    /// in `[min_key, max_key]` from this leaf on.
    pub fn search_range(
        &self,
        leaves: &Vec<LeafNode>,
        min_key: Key,
        max_key: Key,
        Ghost(ids): Ghost<Seq<usize>>,
        Ghost(p): Ghost<int>,
    ) -> (r: Vec<Data>)
        requires
            0 <= p < ids.len(),
            leaves@[ids[p] as int] == *self,
            chain(ids, leaves@),
            forall|i: int| 0 <= i < ids.len() ==> #[trigger] ids[i] < leaves@.len(),
        ensures
            p <= scan_end(ids, leaves@, p + 1, max_key) < ids.len(),
            r@ == in_range(self.data@, min_key, max_key) + chain_vals(
                ids,
                leaves@,
                p + 1,
                scan_end(ids, leaves@, p + 1, max_key) + 1,
                max_key,
            ),
            ({
                &&& sorted(flat(ids, leaves@))
                &&& forall|i: int|
                    0 <= i < flat(ids.skip(p + 1), leaves@).len() ==> (#[trigger] flat(
                        ids.skip(p + 1),
                        leaves@,
                    )[i]).key >= min_key
            }) ==> r@ == in_range(flat(ids.skip(p), leaves@), min_key, max_key),
    {
        let ghost l = leaves@;
        let ghost pre = sorted(flat(ids, l)) && forall|i: int|
            0 <= i < flat(ids.skip(p + 1), l).len() ==> (#[trigger] flat(ids.skip(p + 1), l)[i]).key
                >= min_key;
        let ghost first = in_range(self.data@, min_key, max_key);
        let mut result: Vec<Data> = Vec::new();
        let mut i: usize = 0;
        while i < self.data.len()
            invariant
                i <= self.data@.len(),
                result@ == in_range(self.data@.take(i as int), min_key, max_key),
            decreases self.data@.len() - i,
        {
            proof {
                assert(self.data@.take(i + 1).drop_last() =~= self.data@.take(i as int));
            }
            if min_key <= self.data[i].key && self.data[i].key <= max_key {
                result.push(self.data[i].value);
            }
            i = i + 1;
        }
        proof {
            assert(self.data@.take(i as int) =~= self.data@);
            assert(ids.subrange(p, p + 1) =~= seq![ids[p]]);
            lemma_flat_one(ids[p], l);
            assert(chain_vals(ids, l, p + 1, p + 1, max_key) =~= Seq::<Data>::empty());
            assert(result@ =~= first + chain_vals(ids, l, p + 1, p + 1, max_key));
        }
        let mut cur = self.next;
        let ghost mut q: int = p + 1;
        loop
            invariant_except_break
                cur == if q < ids.len() {
                    Some(ids[q])
                } else {
                    None::<usize>
                },
                result@ == first + chain_vals(ids, l, p + 1, q, max_key),
                q <= ids.len() - 1 ==> scan_end(ids, l, p + 1, max_key) == scan_end(ids, l, q, max_key),
                q == ids.len() ==> scan_end(ids, l, p + 1, max_key) == ids.len() - 1,
                pre ==> result@ == in_range(flat(ids.subrange(p, q), l), min_key, max_key),
            invariant
                p + 1 <= q <= ids.len(),
                0 <= p < ids.len(),
                chain(ids, l),
                l == leaves@,
                forall|i: int| 0 <= i < ids.len() ==> #[trigger] ids[i] < l.len(),
                pre == (sorted(flat(ids, l)) && forall|i: int|
                    0 <= i < flat(ids.skip(p + 1), l).len() ==> (#[trigger] flat(
                        ids.skip(p + 1),
                        l,
                    )[i]).key >= min_key),
            ensures
                result@ == first + chain_vals(
                    ids,
                    l,
                    p + 1,
                    scan_end(ids, l, p + 1, max_key) + 1,
                    max_key,
                ),
                p <= scan_end(ids, l, p + 1, max_key) < ids.len(),
                pre ==> result@ == in_range(flat(ids.skip(p), l), min_key, max_key),
            decreases ids.len() - q,
        {
            match cur {
                None => {
                    proof {
                        assert(ids.subrange(p, q) =~= ids.skip(p));
                    }
                    break ;
                },
                Some(n) => {
                    let leaf = &leaves[n];
                    let ghost d = leaf.data@;
                    let ghost before = result@;
                    proof {
                        if pre {
                            // every key of this leaf is at least `min_key`
                            let rest = ids.skip(p + 1);
                            lemma_flat_at(rest, l, q - p - 1);
                            assert(rest[q - p - 1] == ids[q]);
                            assert forall|e: int| 0 <= e < d.len() implies (#[trigger] d[e]).key
                                >= min_key by {
                                let off = flat(rest.take(q - p - 1), l).len() as int;
                                assert(flat(rest, l)[off + e] == d[e]);
                            }
                            lemma_in_range_lower(d, min_key, max_key);
                        }
                    }
                    let mut cnt: usize = 0;
                    let mut j: usize = 0;
                    while j < leaf.data.len()
                        invariant
                            j <= d.len(),
                            d == leaf.data@,
                            cnt <= j,
                            cnt < j <==> exists|e: int| 0 <= e < j && (#[trigger] d[e]).key > max_key,
                            result@ == before + in_range(d.take(j as int), 0, max_key),
                        decreases d.len() - j,
                    {
                        proof {
                            assert(d.take(j + 1).drop_last() =~= d.take(j as int));
                        }
                        if leaf.data[j].key <= max_key {
                            result.push(leaf.data[j].value);
                            cnt = cnt + 1;
                        }
                        j = j + 1;
                    }
                    proof {
                        assert(d.take(j as int) =~= d);
                        assert(chain_vals(ids, l, p + 1, q + 1, max_key) == chain_vals(
                            ids,
                            l,
                            p + 1,
                            q,
                            max_key,
                        ) + in_range(d, 0, max_key));
                        assert(result@ =~= first + chain_vals(ids, l, p + 1, q + 1, max_key));
                        if pre {
                            let sub = ids.subrange(p, q + 1);
                            assert(sub.drop_last() =~= ids.subrange(p, q));
                            assert(sub.last() == ids[q]);
                            assert(flat(sub, l) == flat(ids.subrange(p, q), l) + d);
                            lemma_in_range_append(flat(ids.subrange(p, q), l), d, min_key, max_key);
                            assert(result@ == in_range(flat(sub, l), min_key, max_key));
                        }
                    }
                    if cnt < leaf.data.len() {
                        proof {
                            let w = choose|e: int| 0 <= e < j && (#[trigger] d[e]).key > max_key;
                            assert(holds_above(d, max_key));
                            if pre {
                                lemma_flat_at(ids, l, q);
                                let after = flat(ids.skip(q + 1), l);
                                let off = flat(ids.take(q), l).len() as int;
                                assert forall|e: int| 0 <= e < after.len() implies !(min_key <= (
                                #[trigger] after[e]).key <= max_key) by {
                                    assert(flat(ids, l)[off + w] == d[w]);
                                    assert(flat(ids, l)[off + d.len() + e] == after[e]);
                                }
                                lemma_in_range_none(after, min_key, max_key);
                                assert(ids.skip(p) =~= ids.subrange(p, q + 1) + ids.skip(q + 1));
                                lemma_flat_append(ids.subrange(p, q + 1), ids.skip(q + 1), l);
                                lemma_in_range_append(
                                    flat(ids.subrange(p, q + 1), l),
                                    after,
                                    min_key,
                                    max_key,
                                );
                                assert(in_range(flat(ids.subrange(p, q + 1), l), min_key, max_key)
                                    + in_range(after, min_key, max_key) =~= in_range(
                                    flat(ids.subrange(p, q + 1), l),
                                    min_key,
                                    max_key,
                                ));
                            }
                        }
                        break ;
                    }
                    proof {
                        assert(!holds_above(d, max_key));
                        if q < ids.len() - 1 {
                            assert(l[ids[q] as int].next == Some(ids[q + 1]));
                        }
                    }
                    cur = leaf.next;
                    proof {
                        q = q + 1;
                    }
                },
            }
        }
        result
    }
}

} // verus!
