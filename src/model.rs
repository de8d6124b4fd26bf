//! The mathematical model of the tree: the entries that its leaves hold
//! left to right, the routing rule, well-formedness, and lemmas over them.
use vstd::prelude::*;
use crate::node::{Key, Data, DataPair, NodePair, Node, InternalNode, LeafNode};

verus! {

pub open spec fn sorted(s: Seq<DataPair>) -> bool {
    forall|i: int, j: int| 0 <= i < j < s.len() ==> s[i].key <= s[j].key
}

pub open spec fn distinct_keys(s: Seq<DataPair>) -> bool {
    forall|i: int, j: int| 0 <= i < j < s.len() ==> s[i].key != s[j].key
}

pub open spec fn has_key(s: Seq<DataPair>, k: Key) -> bool {
    exists|i: int| 0 <= i < s.len() && s[i].key == k
}

/// `(k, v)` is the first entry of `s` with key `k`.
pub open spec fn first_match(s: Seq<DataPair>, k: Key, v: Data) -> bool {
    exists|i: int|
        0 <= i < s.len() && s[i] == DataPair { key: k, value: v } && forall|j: int|
            0 <= j < i ==> (#[trigger] s[j]).key != k
}

/// The number of entries whose key is at most `k`.
pub open spec fn count_le(s: Seq<DataPair>, k: Key) -> nat
    decreases s.len(),
{
    if s.len() == 0 {
        0
    } else {
        count_le(s.drop_last(), k) + if s.last().key <= k {
            1nat
        } else {
            0nat
        }
    }
}

/// `s` after inserting `(k, v)` behind every entry whose key is at most `k`.
pub open spec fn insert_entry(s: Seq<DataPair>, k: Key, v: Data) -> Seq<DataPair> {
    s.insert(count_le(s, k) as int, DataPair { key: k, value: v })
}

/// The values of the entries whose key lies in `[lo, hi]`, in order.
pub open spec fn in_range(s: Seq<DataPair>, lo: Key, hi: Key) -> Seq<Data>
    decreases s.len(),
{
    if s.len() == 0 {
        seq![]
    } else {
        in_range(s.drop_last(), lo, hi) + if lo <= s.last().key <= hi {
            seq![s.last().value]
        } else {
            seq![]
        }
    }
}

/// The entries of the leaves `ids`, one leaf after the other.
pub open spec fn flat(ids: Seq<usize>, leaves: Seq<LeafNode>) -> Seq<DataPair>
    decreases ids.len(),
{
    if ids.len() == 0 {
        seq![]
    } else {
        flat(ids.drop_last(), leaves) + leaves[ids.last() as int].data@
    }
}

/// The handles of the leaves under `n`, left to right.
pub open spec fn leaf_ids(n: Node) -> Seq<usize>
    decreases n,
{
    match n {
        Node::Leaf(h) => seq![h],
        Node::Internal(i) => pair_ids(i.nodes@),
    }
}

pub open spec fn pair_ids(ps: Seq<NodePair>) -> Seq<usize>
    decreases ps,
{
    if ps.len() == 0 {
        seq![]
    } else {
        pair_ids(ps.drop_last()) + leaf_ids(ps.last().value)
    }
}

pub open spec fn entries(n: Node, leaves: Seq<LeafNode>) -> Seq<DataPair> {
    flat(leaf_ids(n), leaves)
}

/// The routing rule: the last child whose key is at most `k`, else the first.
pub open spec fn child_index(ps: Seq<NodePair>, k: Key) -> int
    decreases ps.len(),
{
    if ps.len() <= 1 {
        0
    } else if ps.last().key <= k {
        ps.len() - 1
    } else {
        child_index(ps.drop_last(), k)
    }
}

/// The position, among the leaves under `n`, of the leaf that `k` routes to.
pub open spec fn route(n: Node, k: Key) -> int
    decreases n,
{
    match n {
        Node::Leaf(_) => 0,
        Node::Internal(i) => {
            let c = child_index(i.nodes@, k);
            if 0 <= c < i.nodes@.len() {
                pair_ids(i.nodes@.take(c)).len() + route(i.nodes@[c].value, k)
            } else {
                0
            }
        },
    }
}

pub open spec fn wf_leaf(l: LeafNode, cap: usize) -> bool {
    &&& l.cap == cap
    &&& 1 <= l.data@.len() <= cap
    &&& sorted(l.data@)
}

pub open spec fn wf_node(n: Node, leaves: Seq<LeafNode>, cap: usize) -> bool
    decreases n,
{
    match n {
        Node::Leaf(h) => h < leaves.len() && wf_leaf(leaves[h as int], cap),
        Node::Internal(i) => {
            &&& i.cap == cap
            &&& 1 <= i.nodes@.len() <= cap + 1
            &&& wf_pairs(i.nodes@, leaves, cap)
            &&& forall|j: int|
                0 <= j < i.nodes@.len() ==> (#[trigger] i.nodes@[j]).key == entries(
                    i.nodes@[j].value,
                    leaves,
                )[0].key
            &&& sorted(entries(n, leaves))
        },
    }
}

pub open spec fn wf_pairs(ps: Seq<NodePair>, leaves: Seq<LeafNode>, cap: usize) -> bool
    decreases ps,
{
    ps.len() == 0 || (wf_pairs(ps.drop_last(), leaves, cap) && wf_node(ps.last().value, leaves, cap))
}

pub proof fn lemma_wf_pairs(ps: Seq<NodePair>, leaves: Seq<LeafNode>, cap: usize)
    ensures
        wf_pairs(ps, leaves, cap) <==> forall|j: int|
            0 <= j < ps.len() ==> #[trigger] wf_node(ps[j].value, leaves, cap),
    decreases ps.len(),
{
    if ps.len() > 0 {
        let t = ps.drop_last();
        lemma_wf_pairs(t, leaves, cap);
        if forall|j: int| 0 <= j < ps.len() ==> #[trigger] wf_node(ps[j].value, leaves, cap) {
            assert forall|j: int| 0 <= j < t.len() implies #[trigger] wf_node(t[j].value, leaves, cap) by {
                assert(t[j] == ps[j]);
            }
            assert(wf_node(ps[ps.len() - 1].value, leaves, cap));
        }
        if wf_pairs(ps, leaves, cap) {
            assert forall|j: int| 0 <= j < ps.len() implies #[trigger] wf_node(ps[j].value, leaves, cap) by {
                if j < t.len() {
                    assert(t[j] == ps[j]);
                }
            }
        }
    }
}

// ---------------------------------------------------------------------------
// Lemmas on sequences of entries
pub proof fn lemma_flat_append(a: Seq<usize>, b: Seq<usize>, leaves: Seq<LeafNode>)
    ensures
        flat(a + b, leaves) == flat(a, leaves) + flat(b, leaves),
    decreases b.len(),
{
    if b.len() == 0 {
        assert(a + b =~= a);
    } else {
        lemma_flat_append(a, b.drop_last(), leaves);
        assert((a + b).drop_last() =~= a + b.drop_last());
    }
}

pub proof fn lemma_flat_one(h: usize, leaves: Seq<LeafNode>)
    ensures
        flat(seq![h], leaves) == leaves[h as int].data@,
{
    assert(seq![h].drop_last() =~= Seq::<usize>::empty());
    assert(flat(Seq::<usize>::empty(), leaves) =~= Seq::<DataPair>::empty());
    assert(flat(seq![h], leaves) =~= leaves[h as int].data@);
}

pub proof fn lemma_flat_same(ids: Seq<usize>, l1: Seq<LeafNode>, l2: Seq<LeafNode>)
    requires
        forall|i: int|
            0 <= i < ids.len() ==> l1[ids[i] as int].data@ == l2[ids[i] as int].data@,
    ensures
        flat(ids, l1) == flat(ids, l2),
    decreases ids.len(),
{
    if ids.len() > 0 {
        lemma_flat_same(ids.drop_last(), l1, l2);
    }
}

pub proof fn lemma_pair_ids_append(a: Seq<NodePair>, b: Seq<NodePair>)
    ensures
        pair_ids(a + b) == pair_ids(a) + pair_ids(b),
    decreases b.len(),
{
    if b.len() == 0 {
        assert(a + b =~= a);
    } else {
        lemma_pair_ids_append(a, b.drop_last());
        assert((a + b).drop_last() =~= a + b.drop_last());
    }
}

/// The leaves under a sequence of children, split around child `c`.
pub proof fn lemma_pair_ids_split(ps: Seq<NodePair>, c: int)
    requires
        0 <= c < ps.len(),
    ensures
        pair_ids(ps) == pair_ids(ps.take(c)) + leaf_ids(ps[c].value) + pair_ids(ps.skip(c + 1)),
{
    let one = seq![ps[c]];
    assert(ps =~= ps.take(c) + one + ps.skip(c + 1));
    lemma_pair_ids_append(ps.take(c) + one, ps.skip(c + 1));
    lemma_pair_ids_append(ps.take(c), one);
    assert(one.drop_last() =~= Seq::<NodePair>::empty());
    assert(pair_ids(one.drop_last()) =~= Seq::<usize>::empty());
    assert(one.last() == ps[c]);
    assert(pair_ids(one) =~= leaf_ids(ps[c].value));
}

pub proof fn lemma_count_le_append(a: Seq<DataPair>, b: Seq<DataPair>, k: Key)
    ensures
        count_le(a + b, k) == count_le(a, k) + count_le(b, k),
    decreases b.len(),
{
    if b.len() == 0 {
        assert(a + b =~= a);
    } else {
        lemma_count_le_append(a, b.drop_last(), k);
        assert((a + b).drop_last() =~= a + b.drop_last());
    }
}

pub proof fn lemma_in_range_append(a: Seq<DataPair>, b: Seq<DataPair>, lo: Key, hi: Key)
    ensures
        in_range(a + b, lo, hi) == in_range(a, lo, hi) + in_range(b, lo, hi),
    decreases b.len(),
{
    if b.len() == 0 {
        assert(a + b =~= a);
    } else {
        lemma_in_range_append(a, b.drop_last(), lo, hi);
        assert((a + b).drop_last() =~= a + b.drop_last());
    }
}

pub proof fn lemma_count_le_bounds(s: Seq<DataPair>, k: Key)
    requires
        sorted(s),
    ensures
        count_le(s, k) <= s.len(),
        forall|i: int| 0 <= i < count_le(s, k) ==> s[i].key <= k,
        forall|i: int| count_le(s, k) <= i < s.len() ==> s[i].key > k,
    decreases s.len(),
{
    if s.len() > 0 {
        let t = s.drop_last();
        lemma_count_le_bounds(t, k);
        assert forall|i: int| 0 <= i < count_le(s, k) implies s[i].key <= k by {
            if i < t.len() {
                assert(s[i] == t[i]);
            }
        }
        assert forall|i: int| count_le(s, k) <= i < s.len() implies s[i].key > k by {
            if i < t.len() {
                assert(s[i] == t[i]);
                assert(s[i].key <= s.last().key);
            }
        }
    }
}

pub proof fn lemma_count_le_bounds_any(s: Seq<DataPair>, k: Key)
    ensures
        count_le(s, k) <= s.len(),
    decreases s.len(),
{
    if s.len() > 0 {
        lemma_count_le_bounds_any(s.drop_last(), k);
    }
}

/// Where every entry up to `i` has a key of at most `k` and every later one
/// a greater key, `i` is the number of entries with a key of at most `k`.
pub proof fn lemma_count_le_at(s: Seq<DataPair>, k: Key, i: int)
    requires
        0 <= i <= s.len(),
        forall|j: int| 0 <= j < i ==> s[j].key <= k,
        forall|j: int| i <= j < s.len() ==> s[j].key > k,
    ensures
        count_le(s, k) == i,
    decreases s.len(),
{
    if s.len() > 0 {
        if i == s.len() {
            lemma_count_le_at(s.drop_last(), k, i - 1);
        } else {
            lemma_count_le_at(s.drop_last(), k, i);
        }
    }
}

pub proof fn lemma_insert_entry_sorted(s: Seq<DataPair>, k: Key, v: Data)
    requires
        sorted(s),
    ensures
        sorted(insert_entry(s, k, v)),
        insert_entry(s, k, v).len() == s.len() + 1,
{
    lemma_count_le_bounds(s, k);
    let c = count_le(s, k) as int;
    let t = insert_entry(s, k, v);
    assert forall|i: int, j: int| 0 <= i < j < t.len() implies t[i].key <= t[j].key by {
        if i < c && j > c {
            assert(t[i] == s[i]);
            assert(t[j] == s[j - 1]);
        }
    }
}

/// The capacity a node was built with.
pub open spec fn cap_of(n: Node, leaves: Seq<LeafNode>) -> usize {
    match n {
        Node::Leaf(h) => leaves[h as int].cap,
        Node::Internal(i) => i.cap,
    }
}

/// The smallest key under a well-formed node, read off its first child or entry.
pub open spec fn min_key_of(n: Node, leaves: Seq<LeafNode>) -> Key {
    match n {
        Node::Leaf(h) => leaves[h as int].data@[0].key,
        Node::Internal(i) => i.nodes@[0].key,
    }
}

// ---------------------------------------------------------------------------
// Lemmas on nodes
pub proof fn lemma_child_index(ps: Seq<NodePair>, k: Key)
    requires
        ps.len() >= 1,
    ensures
        0 <= child_index(ps, k) < ps.len(),
        child_index(ps, k) == 0 || ps[child_index(ps, k)].key <= k,
        forall|j: int| child_index(ps, k) < j < ps.len() ==> ps[j].key > k,
    decreases ps.len(),
{
    if ps.len() > 1 && ps.last().key > k {
        let t = ps.drop_last();
        lemma_child_index(t, k);
        assert forall|j: int| child_index(ps, k) < j < ps.len() implies ps[j].key > k by {
            if j < t.len() {
                assert(t[j] == ps[j]);
            }
        }
    }
}

/// The entries under an internal node, split around child `c`.
pub proof fn lemma_entries_split(ps: Seq<NodePair>, c: int, leaves: Seq<LeafNode>)
    requires
        0 <= c < ps.len(),
    ensures
        flat(pair_ids(ps), leaves) == flat(pair_ids(ps.take(c)), leaves) + entries(
            ps[c].value,
            leaves,
        ) + flat(pair_ids(ps.skip(c + 1)), leaves),
{
    lemma_pair_ids_split(ps, c);
    let a = pair_ids(ps.take(c));
    let b = leaf_ids(ps[c].value);
    lemma_flat_append(a + b, pair_ids(ps.skip(c + 1)), leaves);
    lemma_flat_append(a, b, leaves);
}

pub proof fn lemma_leaves_wf(n: Node, leaves: Seq<LeafNode>, cap: usize)
    requires
        wf_node(n, leaves, cap),
    ensures
        leaf_ids(n).len() >= 1,
        forall|i: int| 0 <= i < leaf_ids(n).len() ==> #[trigger] leaf_ids(n)[i] < leaves.len(),
        forall|i: int|
            0 <= i < leaf_ids(n).len() ==> wf_leaf(#[trigger] leaves[leaf_ids(n)[i] as int], cap),
    decreases n,
{
    match n {
        Node::Leaf(h) => {
            assert(leaf_ids(n) =~= seq![h]);
            assert(h < leaves.len());
            assert forall|i: int| 0 <= i < leaf_ids(n).len() implies #[trigger] leaf_ids(n)[i] < leaves.len()
                && wf_leaf(leaves[leaf_ids(n)[i] as int], cap) by {
                assert(leaf_ids(n)[i] == h);
            }
        },
        Node::Internal(i) => {
            lemma_pairs_leaves_wf(i.nodes@, leaves, cap);
        },
    }
}

pub proof fn lemma_pairs_leaves_wf(ps: Seq<NodePair>, leaves: Seq<LeafNode>, cap: usize)
    requires
        wf_pairs(ps, leaves, cap),
    ensures
        ps.len() >= 1 ==> pair_ids(ps).len() >= 1,
        forall|i: int| 0 <= i < pair_ids(ps).len() ==> #[trigger] pair_ids(ps)[i] < leaves.len(),
        forall|i: int|
            0 <= i < pair_ids(ps).len() ==> wf_leaf(#[trigger] leaves[pair_ids(ps)[i] as int], cap),
    decreases ps,
{
    if ps.len() > 0 {
        let last = ps.last().value;
        lemma_leaves_wf(last, leaves, cap);
        lemma_pairs_leaves_wf(ps.drop_last(), leaves, cap);
        let a = pair_ids(ps.drop_last());
        let b = leaf_ids(last);
        assert(pair_ids(ps) == a + b);
        assert forall|i: int| 0 <= i < pair_ids(ps).len() implies #[trigger] pair_ids(ps)[i] < leaves.len()
            && wf_leaf(leaves[pair_ids(ps)[i] as int], cap) by {
            if i < a.len() {
                assert(pair_ids(ps)[i] == a[i]);
            } else {
                assert(pair_ids(ps)[i] == b[i - a.len()]);
            }
        }
    }
}

/// Entries of leaves that are all well-formed: there is one at least, and
/// the first comes from the first leaf.
pub proof fn lemma_flat_nonempty(ids: Seq<usize>, leaves: Seq<LeafNode>, cap: usize)
    requires
        ids.len() >= 1,
        forall|i: int| 0 <= i < ids.len() ==> #[trigger] ids[i] < leaves.len(),
        forall|i: int|
            0 <= i < ids.len() ==> wf_leaf(#[trigger] leaves[ids[i] as int], cap),
    ensures
        flat(ids, leaves).len() >= 1,
        flat(ids, leaves)[0] == leaves[ids[0] as int].data@[0],
{
    let one = seq![ids[0]];
    assert(ids =~= one + ids.skip(1));
    lemma_flat_append(one, ids.skip(1), leaves);
    assert(one.drop_last() =~= Seq::<usize>::empty());
    assert(flat(one.drop_last(), leaves) =~= Seq::<DataPair>::empty());
    assert(flat(one, leaves) =~= leaves[ids[0] as int].data@);
    assert(wf_leaf(leaves[ids[0] as int], cap));
}

pub proof fn lemma_node_facts(n: Node, leaves: Seq<LeafNode>, cap: usize)
    requires
        wf_node(n, leaves, cap),
    ensures
        leaf_ids(n).len() >= 1,
        forall|i: int| 0 <= i < leaf_ids(n).len() ==> #[trigger] leaf_ids(n)[i] < leaves.len(),
        forall|i: int|
            0 <= i < leaf_ids(n).len() ==> wf_leaf(#[trigger] leaves[leaf_ids(n)[i] as int], cap),
        entries(n, leaves).len() >= 1,
        entries(n, leaves)[0].key == min_key_of(n, leaves),
        sorted(entries(n, leaves)),
{
    lemma_leaves_wf(n, leaves, cap);
    lemma_flat_nonempty(leaf_ids(n), leaves, cap);
    match n {
        Node::Leaf(h) => {
            assert(leaf_ids(n) =~= seq![h]);
            lemma_flat_one(h, leaves);
        },
        Node::Internal(i) => {
            let ps = i.nodes@;
            lemma_entries_split(ps, 0, leaves);
            lemma_wf_pairs(ps, leaves, cap);
            assert(wf_node(ps[0].value, leaves, cap));
            lemma_leaves_wf(ps[0].value, leaves, cap);
            lemma_flat_nonempty(leaf_ids(ps[0].value), leaves, cap);
            assert(ps.take(0) =~= Seq::<NodePair>::empty());
            assert(pair_ids(ps.take(0)) =~= Seq::<usize>::empty());
            assert(flat(pair_ids(ps.take(0)), leaves) =~= Seq::<DataPair>::empty());
            assert(ps[0] == i.nodes@[0]);
        },
    }
}

/// In a sorted sequence `x + y + z` with `y` not empty, the keys of `x` are
/// at most the first key of `y`, and those of `z` at least its own first key.
pub proof fn lemma_sorted_parts(x: Seq<DataPair>, y: Seq<DataPair>, z: Seq<DataPair>)
    requires
        sorted(x + y + z),
        y.len() >= 1,
    ensures
        forall|j: int| 0 <= j < x.len() ==> x[j].key <= y[0].key,
        z.len() >= 1 ==> forall|j: int| 0 <= j < z.len() ==> (#[trigger] z[j]).key >= z[0].key,
{
    let all = x + y + z;
    assert forall|j: int| 0 <= j < x.len() implies x[j].key <= y[0].key by {
        assert(all[j] == x[j]);
        assert(all[x.len() as int] == y[0]);
    }
    if z.len() >= 1 {
        let off: int = x.len() as int + y.len() as int;
        assert forall|j: int| 0 <= j < z.len() implies (#[trigger] z[j]).key >= z[0].key by {
            assert(all[off + j] == z[j]);
            assert(all[off] == z[0]);
        }
    }
}

/// The first entry under a non-empty sequence of well-formed children is the
/// first entry of the first child.
pub proof fn lemma_pairs_first(ps: Seq<NodePair>, leaves: Seq<LeafNode>, cap: usize)
    requires
        ps.len() >= 1,
        wf_node(ps[0].value, leaves, cap),
    ensures
        flat(pair_ids(ps), leaves).len() >= 1,
        flat(pair_ids(ps), leaves)[0] == entries(ps[0].value, leaves)[0],
{
    lemma_entries_split(ps, 0, leaves);
    assert(ps.take(0) =~= Seq::<NodePair>::empty());
    assert(pair_ids(ps.take(0)) =~= Seq::<usize>::empty());
    assert(flat(pair_ids(ps.take(0)), leaves) =~= Seq::<DataPair>::empty());
    lemma_node_facts(ps[0].value, leaves, cap);
}

/// The entries under a node, split around the leaf that `k` routes to: those
/// before it have keys of at most `k`, those after it greater keys.
pub proof fn lemma_route_bounds(n: Node, leaves: Seq<LeafNode>, cap: usize, k: Key)
    requires
        wf_node(n, leaves, cap),
    ensures
        0 <= route(n, k) < leaf_ids(n).len(),
        entries(n, leaves) == flat(leaf_ids(n).take(route(n, k)), leaves)
            + leaves[leaf_ids(n)[route(n, k)] as int].data@ + flat(
            leaf_ids(n).skip(route(n, k) + 1),
            leaves,
        ),
        forall|i: int|
            0 <= i < flat(leaf_ids(n).take(route(n, k)), leaves).len() ==> (#[trigger] flat(
                leaf_ids(n).take(route(n, k)),
                leaves,
            )[i]).key <= k,
        forall|i: int|
            0 <= i < flat(leaf_ids(n).skip(route(n, k) + 1), leaves).len() ==> (#[trigger] flat(
                leaf_ids(n).skip(route(n, k) + 1),
                leaves,
            )[i]).key > k,
        route(n, k) > 0 ==> leaves[leaf_ids(n)[route(n, k)] as int].data@[0].key <= k,
    decreases n,
{
    lemma_node_facts(n, leaves, cap);
    match n {
        Node::Leaf(h) => {
            let ids = leaf_ids(n);
            assert(ids =~= seq![h]);
            assert(ids.take(0) =~= Seq::<usize>::empty());
            assert(ids.skip(1) =~= Seq::<usize>::empty());
            assert(flat(Seq::<usize>::empty(), leaves) =~= Seq::<DataPair>::empty());
            lemma_flat_one(h, leaves);
            assert(entries(n, leaves) =~= seq![] + leaves[h as int].data@ + seq![]);
        },
        Node::Internal(i) => {
            let ps = i.nodes@;
            lemma_child_index(ps, k);
            let c = child_index(ps, k);
            let child = ps[c].value;
            lemma_wf_pairs(ps, leaves, cap);
            assert(wf_node(child, leaves, cap));
            lemma_route_bounds(child, leaves, cap, k);
            lemma_node_facts(child, leaves, cap);
            let a = pair_ids(ps.take(c));
            let cs = leaf_ids(child);
            let b = pair_ids(ps.skip(c + 1));
            let pc = route(child, k);
            let p = route(n, k);
            lemma_pair_ids_split(ps, c);
            assert(p == a.len() + pc);
            let ids = leaf_ids(n);
            assert(ids == a + cs + b);
            assert(ids.take(p) =~= a + cs.take(pc));
            assert(ids.skip(p + 1) =~= cs.skip(pc + 1) + b);
            assert(ids[p] == cs[pc]);
            lemma_flat_append(a, cs.take(pc), leaves);
            lemma_flat_append(cs.skip(pc + 1), b, leaves);
            lemma_entries_split(ps, c, leaves);
            let fa = flat(a, leaves);
            let fb = flat(b, leaves);
            let fct = flat(cs.take(pc), leaves);
            let fcs = flat(cs.skip(pc + 1), leaves);
            let d = leaves[cs[pc] as int].data@;
            let ec = entries(child, leaves);
            let all = entries(n, leaves);
            assert(all == fa + ec + fb);
            assert(ec == fct + d + fcs);
            assert(all =~= (fa + fct) + d + (fcs + fb));
            // keys before the child
            lemma_sorted_parts(fa, ec, fb);
            if c == 0 {
                assert(ps.take(0) =~= Seq::<NodePair>::empty());
                assert(a =~= Seq::<usize>::empty());
                assert(fa =~= Seq::<DataPair>::empty());
            } else {
                assert(ps[c].key == ec[0].key);
            }
            assert forall|j: int| 0 <= j < (fa + fct).len() implies (fa + fct)[j].key <= k by {
                if j >= fa.len() {
                    assert((fa + fct)[j] == fct[j - fa.len()]);
                } else {
                    assert((fa + fct)[j] == fa[j]);
                }
            }
            // keys after the child
            if c + 1 == ps.len() {
                assert(ps.skip(c + 1) =~= Seq::<NodePair>::empty());
                assert(b =~= Seq::<usize>::empty());
                assert(fb =~= Seq::<DataPair>::empty());
            } else {
                let rest = ps.skip(c + 1);
                assert(rest[0] == ps[c + 1]);
                assert(wf_node(ps[c + 1].value, leaves, cap));
                lemma_pairs_first(rest, leaves, cap);
                assert(ps[c + 1].key == fb[0].key);
            }
            assert forall|j: int| 0 <= j < (fcs + fb).len() implies (fcs + fb)[j].key > k by {
                if j < fcs.len() {
                    assert((fcs + fb)[j] == fcs[j]);
                } else {
                    assert((fcs + fb)[j] == fb[j - fcs.len()]);
                }
            }
            if p > 0 && pc == 0 {
                assert(a.len() > 0);
                assert(c > 0) by {
                    if c == 0 {
                        assert(ps.take(0) =~= Seq::<NodePair>::empty());
                        assert(a =~= Seq::<usize>::empty());
                    }
                }
                assert(cs.take(0) =~= Seq::<usize>::empty());
                assert(fct =~= Seq::<DataPair>::empty());
                assert(ec[0] == d[0]);
                assert(ps[c].key == ec[0].key);
            }
        },
    }
}

pub open spec fn same_leaves(ids: Seq<usize>, l1: Seq<LeafNode>, l2: Seq<LeafNode>) -> bool {
    forall|i: int|
        0 <= i < ids.len() ==> #[trigger] ids[i] < l2.len() && l2[ids[i] as int] == l1[ids[i] as int]
}

/// A node stays well-formed, with the same entries, in an arena that agrees
/// on its leaves.
pub proof fn lemma_wf_frame(n: Node, l1: Seq<LeafNode>, l2: Seq<LeafNode>, cap: usize)
    requires
        wf_node(n, l1, cap),
        same_leaves(leaf_ids(n), l1, l2),
    ensures
        wf_node(n, l2, cap),
        entries(n, l2) == entries(n, l1),
    decreases n,
{
    let ids = leaf_ids(n);
    lemma_flat_same(ids, l2, l1);
    match n {
        Node::Leaf(h) => {
            assert(ids[0] == h);
        },
        Node::Internal(i) => {
            lemma_pairs_frame(i.nodes@, l1, l2, cap);
        },
    }
}

pub proof fn lemma_pairs_frame(ps: Seq<NodePair>, l1: Seq<LeafNode>, l2: Seq<LeafNode>, cap: usize)
    requires
        wf_pairs(ps, l1, cap),
        same_leaves(pair_ids(ps), l1, l2),
    ensures
        wf_pairs(ps, l2, cap),
        forall|j: int|
            0 <= j < ps.len() ==> entries(ps[j].value, l2) == #[trigger] entries(ps[j].value, l1),
    decreases ps,
{
    if ps.len() > 0 {
        let t = ps.drop_last();
        let a = pair_ids(t);
        let b = leaf_ids(ps.last().value);
        assert(pair_ids(ps) == a + b);
        assert forall|i: int| 0 <= i < a.len() implies #[trigger] a[i] < l2.len() && l2[a[i] as int]
            == l1[a[i] as int] by {
            assert(pair_ids(ps)[i] == a[i]);
        }
        assert forall|i: int| 0 <= i < b.len() implies #[trigger] b[i] < l2.len() && l2[b[i] as int]
            == l1[b[i] as int] by {
            assert(pair_ids(ps)[a.len() + i] == b[i]);
        }
        lemma_pairs_frame(t, l1, l2, cap);
        lemma_wf_frame(ps.last().value, l1, l2, cap);
        assert forall|j: int| 0 <= j < ps.len() implies entries(ps[j].value, l2) == #[trigger] entries(
            ps[j].value,
            l1,
        ) by {
            if j < t.len() {
                assert(t[j] == ps[j]);
            }
        }
    }
}

pub proof fn lemma_sorted_sub(a: Seq<DataPair>, b: Seq<DataPair>)
    requires
        sorted(a + b),
    ensures
        sorted(a),
        sorted(b),
{
    let s = a + b;
    assert forall|i: int, j: int| 0 <= i < j < a.len() implies a[i].key <= a[j].key by {
        assert(s[i] == a[i] && s[j] == a[j]);
    }
    assert forall|i: int, j: int| 0 <= i < j < b.len() implies b[i].key <= b[j].key by {
        assert(s[a.len() + i] == b[i] && s[a.len() + j] == b[j]);
    }
}

/// The entries under an internal node, split around the child that `k`
/// routes to: those before it have keys of at most `k`, those after it
/// greater keys.
pub proof fn lemma_child_bounds(i: InternalNode, leaves: Seq<LeafNode>, cap: usize, k: Key)
    requires
        wf_node(Node::Internal(i), leaves, cap),
    ensures
        0 <= child_index(i.nodes@, k) < i.nodes@.len(),
        wf_node(i.nodes@[child_index(i.nodes@, k)].value, leaves, cap),
        ({
            let ps = i.nodes@;
            let c = child_index(ps, k);
            let fa = flat(pair_ids(ps.take(c)), leaves);
            let fb = flat(pair_ids(ps.skip(c + 1)), leaves);
            &&& entries(Node::Internal(i), leaves) == fa + entries(ps[c].value, leaves) + fb
            &&& forall|j: int| 0 <= j < fa.len() ==> (#[trigger] fa[j]).key <= k
            &&& forall|j: int| 0 <= j < fb.len() ==> (#[trigger] fb[j]).key > k
        }),
{
    let n = Node::Internal(i);
    let ps = i.nodes@;
    lemma_child_index(ps, k);
    let c = child_index(ps, k);
    let child = ps[c].value;
    lemma_wf_pairs(ps, leaves, cap);
    assert(wf_node(child, leaves, cap));
    lemma_node_facts(child, leaves, cap);
    lemma_entries_split(ps, c, leaves);
    let fa = flat(pair_ids(ps.take(c)), leaves);
    let fb = flat(pair_ids(ps.skip(c + 1)), leaves);
    let ec = entries(child, leaves);
    lemma_sorted_parts(fa, ec, fb);
    if c == 0 {
        assert(ps.take(0) =~= Seq::<NodePair>::empty());
        assert(pair_ids(ps.take(0)) =~= Seq::<usize>::empty());
        assert(fa =~= Seq::<DataPair>::empty());
    } else {
        assert(ps[c].key == ec[0].key);
    }
    if c + 1 == ps.len() {
        assert(ps.skip(c + 1) =~= Seq::<NodePair>::empty());
        assert(pair_ids(ps.skip(c + 1)) =~= Seq::<usize>::empty());
        assert(fb =~= Seq::<DataPair>::empty());
    } else {
        let rest = ps.skip(c + 1);
        assert(rest[0] == ps[c + 1]);
        assert(wf_node(ps[c + 1].value, leaves, cap));
        lemma_pairs_first(rest, leaves, cap);
        assert(ps[c + 1].key == fb[0].key);
    }
}

pub open spec fn opt_ids(r: Option<Node>) -> Seq<usize> {
    match r {
        Some(s) => leaf_ids(s),
        None => seq![],
    }
}

/// What inserting `(key, data)` into node `n` over arena `l0` did, when it
/// left `n2` in its place and `r` as a new right sibling, over arena `l1`.
pub open spec fn inserted(
    n: Node,
    n2: Node,
    r: Option<Node>,
    l0: Seq<LeafNode>,
    l1: Seq<LeafNode>,
    key: Key,
    data: Data,
    cap: usize,
) -> bool {
    let ids = leaf_ids(n);
    let p = route(n, key);
    let h = ids[p];
    let len0 = l0.len();
    let new_ids = leaf_ids(n2) + opt_ids(r);
    &&& wf_node(n2, l1, cap)
    &&& (r matches Some(s) ==> wf_node(s, l1, cap))
    &&& forall|j: int| 0 <= j < len0 && j != h ==> #[trigger] l1[j] == l0[j]
    &&& {
        ||| l1.len() == len0 && new_ids == ids && l1[h as int].next == l0[h as int].next
        ||| l1.len() == len0 + 1 && new_ids == ids.insert(p + 1, len0 as usize) && l1[h as int].next
            == Some(len0 as usize) && l1[len0 as int].next == l0[h as int].next
            && l0[h as int].data@.len() == cap && l1[h as int].data@.len() == (cap + 1) / 2
    }
    &&& flat(new_ids, l1) == insert_entry(entries(n, l0), key, data)
}

/// The children that replace child `c` after an insertion into it.
pub open spec fn replacement(n2: Node, r: Option<Node>, l1: Seq<LeafNode>) -> Seq<NodePair> {
    seq![NodePair { key: min_key_of(n2, l1), value: n2 }] + match r {
        Some(s) => seq![NodePair { key: min_key_of(s, l1), value: s }],
        None => seq![],
    }
}

pub proof fn lemma_pair_ids_one(x: NodePair)
    ensures
        pair_ids(seq![x]) == leaf_ids(x.value),
{
    assert(seq![x].drop_last() =~= Seq::<NodePair>::empty());
    assert(pair_ids(Seq::<NodePair>::empty()) =~= Seq::<usize>::empty());
    assert(pair_ids(seq![x]) =~= leaf_ids(x.value));
}

pub proof fn lemma_wf_pairs_sub(ps: Seq<NodePair>, lo: int, hi: int, leaves: Seq<LeafNode>, cap: usize)
    requires
        wf_pairs(ps, leaves, cap),
        0 <= lo <= hi <= ps.len(),
    ensures
        wf_pairs(ps.subrange(lo, hi), leaves, cap),
{
    lemma_wf_pairs(ps, leaves, cap);
    let t = ps.subrange(lo, hi);
    assert forall|j: int| 0 <= j < t.len() implies #[trigger] wf_node(t[j].value, leaves, cap) by {
        assert(t[j] == ps[lo + j]);
    }
    lemma_wf_pairs(t, leaves, cap);
}

/// The leaves under the children after child `c` was replaced.
pub proof fn lemma_replacement_ids(ps: Seq<NodePair>, c: int, n2: Node, r: Option<Node>, l1: Seq<LeafNode>)
    requires
        0 <= c < ps.len(),
    ensures
        pair_ids(ps.take(c) + replacement(n2, r, l1) + ps.skip(c + 1)) == pair_ids(ps.take(c))
            + (leaf_ids(n2) + opt_ids(r)) + pair_ids(ps.skip(c + 1)),
        (ps.take(c) + replacement(n2, r, l1) + ps.skip(c + 1)).len() == ps.len() + if r is Some {
            1int
        } else {
            0int
        },
{
    let mid = replacement(n2, r, l1);
    lemma_pair_ids_one(mid[0]);
    if let Some(s) = r {
        lemma_pair_ids_append(seq![mid[0]], seq![mid[1]]);
        lemma_pair_ids_one(mid[1]);
        assert(mid =~= seq![mid[0]] + seq![mid[1]]);
    } else {
        assert(mid =~= seq![mid[0]]);
    }
    assert(pair_ids(mid) == leaf_ids(n2) + opt_ids(r));
    lemma_pair_ids_append(ps.take(c) + mid, ps.skip(c + 1));
    lemma_pair_ids_append(ps.take(c), mid);
}

/// After an insertion into the routed child, the leaves other than the
/// routed one are untouched and the leaf handles grew as the child's did.
#[verifier::rlimit(100)]
pub proof fn lemma_insert_child_handles(
    i: InternalNode,
    n2: Node,
    r: Option<Node>,
    l0: Seq<LeafNode>,
    l1: Seq<LeafNode>,
    key: Key,
    data: Data,
    cap: usize,
)
    requires
        wf_node(Node::Internal(i), l0, cap),
        0 <= child_index(i.nodes@, key) < i.nodes@.len(),
        inserted(i.nodes@[child_index(i.nodes@, key)].value, n2, r, l0, l1, key, data, cap),
    ensures
        ({
            let ps = i.nodes@;
            let c = child_index(ps, key);
            let ps1 = ps.take(c) + replacement(n2, r, l1) + ps.skip(c + 1);
            let n = Node::Internal(i);
            let ids = leaf_ids(n);
            let p = route(n, key);
            let h = ids[p];
            let len0 = l0.len();
            let new_ids = pair_ids(ps1);
            &&& forall|j: int| 0 <= j < len0 && j != h ==> #[trigger] l1[j] == l0[j]
            &&& {
                ||| l1.len() == len0 && new_ids == ids && l1[h as int].next == l0[h as int].next
                ||| l1.len() == len0 + 1 && new_ids == ids.insert(p + 1, len0 as usize)
                    && l1[h as int].next == Some(len0 as usize) && l1[len0 as int].next
                    == l0[h as int].next && l0[h as int].data@.len() == cap
                    && l1[h as int].data@.len() == (cap + 1) / 2
            }
        }),
{
    let ps = i.nodes@;
    let n = Node::Internal(i);
    let c = child_index(ps, key);
    let child = ps[c].value;
    let len0 = l0.len();
    lemma_route_child(i, l0, cap, key);
    lemma_route_bounds(child, l0, cap, key);
    lemma_pair_ids_split(ps, c);
    lemma_replacement_ids(ps, c, n2, r, l1);
    let a = pair_ids(ps.take(c));
    let cs = leaf_ids(child);
    let ids = leaf_ids(n);
    assert(route(n, key) == a.len() + route(child, key));
    if l1.len() == len0 + 1 && !(l1.len() == len0) {
        assert(pair_ids(ps.take(c) + replacement(n2, r, l1) + ps.skip(c + 1)) =~= ids.insert(
            route(n, key) + 1,
            len0 as usize,
        ));
    }
}

/// Inserting into the routed child leaves the leaves under the other
/// children untouched.
pub proof fn lemma_insert_child_frame(
    i: InternalNode,
    n2: Node,
    r: Option<Node>,
    l0: Seq<LeafNode>,
    l1: Seq<LeafNode>,
    key: Key,
    data: Data,
    cap: usize,
)
    requires
        wf_node(Node::Internal(i), l0, cap),
        leaf_ids(Node::Internal(i)).no_duplicates(),
        0 <= child_index(i.nodes@, key) < i.nodes@.len(),
        inserted(i.nodes@[child_index(i.nodes@, key)].value, n2, r, l0, l1, key, data, cap),
    ensures
        same_leaves(pair_ids(i.nodes@.take(child_index(i.nodes@, key))), l0, l1),
        same_leaves(pair_ids(i.nodes@.skip(child_index(i.nodes@, key) + 1)), l0, l1),
{
    let ps = i.nodes@;
    let n = Node::Internal(i);
    let c = child_index(ps, key);
    let child = ps[c].value;
    let len0 = l0.len();
    lemma_node_facts(n, l0, cap);
    lemma_child_bounds(i, l0, cap, key);
    // leaf handles
    let a = pair_ids(ps.take(c));
    let cs = leaf_ids(child);
    let b = pair_ids(ps.skip(c + 1));
    let ids = leaf_ids(n);
    lemma_pair_ids_split(ps, c);
    assert(ids == a + cs + b);
    let pc = route(child, key);
    lemma_route_bounds(child, l0, cap, key);
    assert(route(n, key) == a.len() + pc);
    let h = cs[pc];
    assert(ids[a.len() + pc] == h);
    // the other children keep their leaves
    assert(same_leaves(a, l0, l1)) by {
        assert forall|j: int| 0 <= j < a.len() implies #[trigger] a[j] < l1.len() && l1[a[j] as int]
            == l0[a[j] as int] by {
            assert(ids[j] == a[j]);
            assert(a[j] < len0);
            assert(ids[j] != ids[a.len() + pc]);
        }
    }
    assert(same_leaves(b, l0, l1)) by {
        assert forall|j: int| 0 <= j < b.len() implies #[trigger] b[j] < l1.len() && l1[b[j] as int]
            == l0[b[j] as int] by {
            let q = a.len() + cs.len() + j;
            assert(ids[q] == b[j]);
            assert(b[j] < len0);
            assert(ids[q] != ids[a.len() + pc]);
        }
    }
}

/// Inserting into the child that the key routes to, and putting what came
/// back in its place, is an insertion into the whole node.
#[verifier::rlimit(100)]
#[verifier::spinoff_prover]
pub proof fn lemma_insert_child(
    i: InternalNode,
    n2: Node,
    r: Option<Node>,
    l0: Seq<LeafNode>,
    l1: Seq<LeafNode>,
    key: Key,
    data: Data,
    cap: usize,
)
    requires
        wf_node(Node::Internal(i), l0, cap),
        leaf_ids(Node::Internal(i)).no_duplicates(),
        0 <= child_index(i.nodes@, key) < i.nodes@.len(),
        inserted(i.nodes@[child_index(i.nodes@, key)].value, n2, r, l0, l1, key, data, cap),
    ensures
        ({
            let ps = i.nodes@;
            let c = child_index(ps, key);
            let ps1 = ps.take(c) + replacement(n2, r, l1) + ps.skip(c + 1);
            let n = Node::Internal(i);
            let ids = leaf_ids(n);
            let p = route(n, key);
            let h = ids[p];
            let len0 = l0.len();
            let new_ids = pair_ids(ps1);
            &&& ps1.len() == ps.len() + if r is Some { 1int } else { 0int }
            &&& wf_pairs(ps1, l1, cap)
            &&& forall|j: int|
                0 <= j < ps1.len() ==> (#[trigger] ps1[j]).key == entries(ps1[j].value, l1)[0].key
            &&& sorted(flat(new_ids, l1))
            &&& flat(new_ids, l1) == insert_entry(entries(n, l0), key, data)
        }),
{
    let ps = i.nodes@;
    let n = Node::Internal(i);
    let c = child_index(ps, key);
    let child = ps[c].value;
    assert(inserted(child, n2, r, l0, l1, key, data, cap));
    let mid = replacement(n2, r, l1);
    let ps1 = ps.take(c) + mid + ps.skip(c + 1);
    let len0 = l0.len();
    lemma_child_bounds(i, l0, cap, key);
    lemma_node_facts(child, l0, cap);
    let a = pair_ids(ps.take(c));
    let cs = leaf_ids(child);
    let b = pair_ids(ps.skip(c + 1));
    let ids = leaf_ids(n);
    lemma_pair_ids_split(ps, c);
    let cn = leaf_ids(n2) + opt_ids(r);
    lemma_replacement_ids(ps, c, n2, r, l1);
    let new_ids = pair_ids(ps1);
    assert(new_ids == a + cn + b);
    lemma_insert_child_frame(i, n2, r, l0, l1, key, data, cap);
    lemma_wf_pairs(ps, l0, cap);
    lemma_wf_pairs_sub(ps, 0, c, l0, cap);
    lemma_wf_pairs_sub(ps, c + 1, ps.len() as int, l0, cap);
    assert(ps.take(c) =~= ps.subrange(0, c));
    assert(ps.skip(c + 1) =~= ps.subrange(c + 1, ps.len() as int));
    lemma_pairs_frame(ps.take(c), l0, l1, cap);
    lemma_pairs_frame(ps.skip(c + 1), l0, l1, cap);
    lemma_wf_pairs(ps.take(c), l1, cap);
    lemma_wf_pairs(ps.skip(c + 1), l1, cap);
    lemma_node_facts(n2, l1, cap);
    if let Some(s) = r {
        lemma_node_facts(s, l1, cap);
    }
    // well-formed children with exact keys
    assert forall|j: int| 0 <= j < ps1.len() implies #[trigger] wf_node(ps1[j].value, l1, cap)
        && ps1[j].key == entries(ps1[j].value, l1)[0].key by {
        if j < c {
            assert(ps1[j] == ps.take(c)[j]);
            assert(ps.take(c)[j] == ps[j]);
        } else if j < c + mid.len() {
            assert(ps1[j] == mid[j - c]);
        } else {
            let q = j - c - mid.len();
            assert(ps1[j] == ps.skip(c + 1)[q]);
            assert(ps.skip(c + 1)[q] == ps[c + 1 + q]);
        }
    }
    lemma_wf_pairs(ps1, l1, cap);
    // the entries
    lemma_flat_same(a, l1, l0);
    lemma_flat_same(b, l1, l0);
    lemma_flat_append(a + cn, b, l1);
    lemma_flat_append(a, cn, l1);
    let fa = flat(a, l0);
    let fb = flat(b, l0);
    let ec = entries(child, l0);
    lemma_count_le_at(fa, key, fa.len() as int);
    lemma_count_le_at(fb, key, 0);
    lemma_count_le_append(fa + ec, fb, key);
    lemma_count_le_append(fa, ec, key);
    assert(entries(n, l0) == fa + ec + fb);
    assert(inserted(child, n2, r, l0, l1, key, data, cap));
    assert(flat(cn, l1) == insert_entry(ec, key, data));
    let x = DataPair { key, value: data };
    let m = count_le(ec, key);
    lemma_count_le_bounds(ec, key);
    assert(count_le(entries(n, l0), key) == fa.len() + m);
    assert(flat(new_ids, l1) == fa + insert_entry(ec, key, data) + fb);
    assert((fa + ec + fb).insert(fa.len() as int + m as int, x) =~= fa + ec.insert(m as int, x) + fb);
    assert(flat(new_ids, l1) == insert_entry(entries(n, l0), key, data));
    lemma_insert_entry_sorted(entries(n, l0), key, data);
}

/// The leaf that `k` routes to under an internal node is the one it routes
/// to under the chosen child.
pub proof fn lemma_route_child(i: InternalNode, leaves: Seq<LeafNode>, cap: usize, k: Key)
    requires
        wf_node(Node::Internal(i), leaves, cap),
    ensures
        0 <= child_index(i.nodes@, k) < i.nodes@.len(),
        wf_node(i.nodes@[child_index(i.nodes@, k)].value, leaves, cap),
        cap_of(i.nodes@[child_index(i.nodes@, k)].value, leaves) == cap,
        0 <= route(i.nodes@[child_index(i.nodes@, k)].value, k) < leaf_ids(
            i.nodes@[child_index(i.nodes@, k)].value,
        ).len(),
        leaf_ids(Node::Internal(i))[route(Node::Internal(i), k)] == leaf_ids(
            i.nodes@[child_index(i.nodes@, k)].value,
        )[route(i.nodes@[child_index(i.nodes@, k)].value, k)],
{
    let ps = i.nodes@;
    lemma_child_bounds(i, leaves, cap, k);
    let c = child_index(ps, k);
    let child = ps[c].value;
    lemma_route_bounds(child, leaves, cap, k);
    lemma_pair_ids_split(ps, c);
    let a = pair_ids(ps.take(c));
    let cs = leaf_ids(child);
    let ids = leaf_ids(Node::Internal(i));
    assert(ids == a + cs + pair_ids(ps.skip(c + 1)));
    assert(route(Node::Internal(i), k) == a.len() + route(child, k));
    assert(ids[a.len() + route(child, k)] == cs[route(child, k)]);
    match child {
        Node::Leaf(h) => {},
        Node::Internal(ci) => {},
    }
}

/// Splitting the children of a well-formed internal node at `mid` leaves two
/// well-formed halves that hold, together, the same leaves.
pub proof fn lemma_split_pairs(ps1: Seq<NodePair>, mid: int, leaves: Seq<LeafNode>, cap: usize)
    requires
        0 < mid < ps1.len(),
        wf_pairs(ps1, leaves, cap),
        forall|j: int|
            0 <= j < ps1.len() ==> (#[trigger] ps1[j]).key == entries(ps1[j].value, leaves)[0].key,
        sorted(flat(pair_ids(ps1), leaves)),
    ensures
        pair_ids(ps1.take(mid)) + pair_ids(ps1.skip(mid)) == pair_ids(ps1),
        wf_pairs(ps1.take(mid), leaves, cap),
        wf_pairs(ps1.skip(mid), leaves, cap),
        forall|j: int|
            0 <= j < ps1.take(mid).len() ==> (#[trigger] ps1.take(mid)[j]).key == entries(
                ps1.take(mid)[j].value,
                leaves,
            )[0].key,
        forall|j: int|
            0 <= j < ps1.skip(mid).len() ==> (#[trigger] ps1.skip(mid)[j]).key == entries(
                ps1.skip(mid)[j].value,
                leaves,
            )[0].key,
        sorted(flat(pair_ids(ps1.take(mid)), leaves)),
        sorted(flat(pair_ids(ps1.skip(mid)), leaves)),
{
    let left = ps1.take(mid);
    let rs = ps1.skip(mid);
    assert(ps1 =~= left + rs);
    lemma_pair_ids_append(left, rs);
    lemma_flat_append(pair_ids(left), pair_ids(rs), leaves);
    lemma_sorted_sub(flat(pair_ids(left), leaves), flat(pair_ids(rs), leaves));
    lemma_wf_pairs_sub(ps1, 0, mid, leaves, cap);
    lemma_wf_pairs_sub(ps1, mid, ps1.len() as int, leaves, cap);
    assert(left =~= ps1.subrange(0, mid));
    assert(rs =~= ps1.subrange(mid, ps1.len() as int));
    assert forall|j: int| 0 <= j < left.len() implies (#[trigger] left[j]).key == entries(
        left[j].value,
        leaves,
    )[0].key by {
        assert(left[j] == ps1[j]);
    }
    assert forall|j: int| 0 <= j < rs.len() implies (#[trigger] rs[j]).key == entries(
        rs[j].value,
        leaves,
    )[0].key by {
        assert(rs[j] == ps1[mid + j]);
    }
}

/// The forward handles of the leaves `ids` link each to the next, and the
/// last to nothing.
pub open spec fn chain(ids: Seq<usize>, leaves: Seq<LeafNode>) -> bool {
    &&& forall|i: int|
        0 <= i < ids.len() - 1 ==> (#[trigger] leaves[ids[i] as int]).next == Some(ids[i + 1])
    &&& ids.len() > 0 ==> leaves[ids[ids.len() - 1] as int].next is None
}

/// Splitting leaf `ids[p]` into it and a new leaf at the end of the arena,
/// which takes over its forward handle, keeps the chain whole.
pub proof fn lemma_chain_insert(
    ids: Seq<usize>,
    new_ids: Seq<usize>,
    l0: Seq<LeafNode>,
    l1: Seq<LeafNode>,
    p: int,
)
    requires
        chain(ids, l0),
        ids.no_duplicates(),
        0 <= p < ids.len(),
        l1.len() <= usize::MAX,
        forall|i: int| 0 <= i < ids.len() ==> #[trigger] ids[i] < l0.len(),
        forall|j: int| 0 <= j < l0.len() && j != ids[p] ==> #[trigger] l1[j] == l0[j],
        ({
            let h = ids[p] as int;
            let len0 = l0.len();
            ||| l1.len() == len0 && new_ids == ids && l1[h].next == l0[h].next
            ||| l1.len() == len0 + 1 && new_ids == ids.insert(p + 1, len0 as usize) && l1[h].next
                == Some(len0 as usize) && l1[len0 as int].next == l0[h].next
        }),
    ensures
        chain(new_ids, l1),
        new_ids.no_duplicates(),
        forall|i: int| 0 <= i < new_ids.len() ==> #[trigger] new_ids[i] < l1.len(),
        new_ids.len() == ids.len() + (l1.len() - l0.len()),
{
    let h = ids[p];
    let len0 = l0.len();
    let n = ids.len();
    if l1.len() == len0 && new_ids == ids {
        assert forall|i: int| 0 <= i < n - 1 implies (#[trigger] l1[ids[i] as int]).next == Some(
            ids[i + 1],
        ) by {
            assert(l0[ids[i] as int].next == Some(ids[i + 1]));
        }
        assert(l0[ids[n - 1] as int].next is None);
    } else {
        let n0 = len0 as usize;
        assert(new_ids =~= ids.take(p + 1) + seq![n0] + ids.skip(p + 1));
        assert(new_ids.len() == n + 1);
        assert forall|i: int| 0 <= i < new_ids.len() implies #[trigger] new_ids[i] < l1.len() by {
            if i > p + 1 {
                assert(new_ids[i] == ids[i - 1]);
            } else if i < p + 1 {
                assert(new_ids[i] == ids[i]);
            }
        }
        assert forall|i: int| 0 <= i < new_ids.len() - 1 implies (#[trigger] l1[new_ids[i] as int]).next
            == Some(new_ids[i + 1]) by {
            if i < p {
                assert(new_ids[i] == ids[i] && new_ids[i + 1] == ids[i + 1]);
                assert(ids[i] != h);
                assert(l0[ids[i] as int].next == Some(ids[i + 1]));
                assert(l1[ids[i] as int] == l0[ids[i] as int]);
            } else if i == p {
                assert(new_ids[i] == h && new_ids[i + 1] == n0);
            } else if i == p + 1 {
                assert(new_ids[i] == n0 && new_ids[i + 1] == ids[p + 1]);
                assert(l0[ids[p] as int].next == Some(ids[p + 1]));
            } else {
                assert(new_ids[i] == ids[i - 1] && new_ids[i + 1] == ids[i]);
                assert(ids[i - 1] != h);
                assert(l0[ids[i - 1] as int].next == Some(ids[i]));
                assert(l1[ids[i - 1] as int] == l0[ids[i - 1] as int]);
            }
        }
        if p == n - 1 {
            assert(new_ids[new_ids.len() - 1] == n0);
        } else {
            assert(new_ids[new_ids.len() - 1] == ids[n - 1]);
            assert(ids[n - 1] != h);
        }
        assert forall|x: int, y: int| 0 <= x < y < new_ids.len() implies new_ids[x] != new_ids[y] by {
            let ox = if x <= p { x } else if x == p + 1 { -1 } else { x - 1 };
            let oy = if y <= p { y } else if y == p + 1 { -1 } else { y - 1 };
            if ox >= 0 {
                assert(new_ids[x] == ids[ox]);
                assert(ids[ox] < len0);
            } else {
                assert(new_ids[x] == n0);
            }
            if oy >= 0 {
                assert(new_ids[y] == ids[oy]);
                assert(ids[oy] < len0);
            } else {
                assert(new_ids[y] == n0);
            }
        }
    }
}

/// The entries of the leaves `ids`, split around leaf `t`.
pub proof fn lemma_flat_at(ids: Seq<usize>, leaves: Seq<LeafNode>, t: int)
    requires
        0 <= t < ids.len(),
    ensures
        flat(ids, leaves) == flat(ids.take(t), leaves) + leaves[ids[t] as int].data@ + flat(
            ids.skip(t + 1),
            leaves,
        ),
{
    assert(ids =~= ids.take(t) + seq![ids[t]] + ids.skip(t + 1));
    lemma_flat_append(ids.take(t) + seq![ids[t]], ids.skip(t + 1), leaves);
    lemma_flat_append(ids.take(t), seq![ids[t]], leaves);
    lemma_flat_one(ids[t], leaves);
}

pub proof fn lemma_in_range_none(s: Seq<DataPair>, lo: Key, hi: Key)
    requires
        forall|i: int| 0 <= i < s.len() ==> !(lo <= (#[trigger] s[i]).key <= hi),
    ensures
        in_range(s, lo, hi) == Seq::<Data>::empty(),
    decreases s.len(),
{
    if s.len() > 0 {
        let t = s.drop_last();
        assert forall|i: int| 0 <= i < t.len() implies !(lo <= (#[trigger] t[i]).key <= hi) by {
            assert(t[i] == s[i]);
        }
        lemma_in_range_none(t, lo, hi);
        assert(!(lo <= s[s.len() - 1].key <= hi));
    }
}

/// An insertion at the root keeps the leaf chain whole and covering, and
/// when the tree was one leaf, it stays one until that leaf overflows and
/// then becomes two, split at the middle.
#[verifier::rlimit(60)]
pub proof fn lemma_root_insert(
    r0: Node,
    r1: Node,
    sp: Option<Node>,
    l0: Seq<LeafNode>,
    l1: Seq<LeafNode>,
    key: Key,
    data: Data,
    cap: usize,
)
    requires
        wf_node(r0, l0, cap),
        leaf_ids(r0).no_duplicates(),
        leaf_ids(r0).len() == l0.len(),
        chain(leaf_ids(r0), l0),
        l1.len() <= usize::MAX,
        inserted(r0, r1, sp, l0, l1, key, data, cap),
    ensures
        ({
            let ids = leaf_ids(r0);
            let new_ids = leaf_ids(r1) + opt_ids(sp);
            let half = ((cap + 1) / 2) as int;
            &&& chain(new_ids, l1)
            &&& new_ids.no_duplicates()
            &&& new_ids.len() == l1.len()
            &&& flat(new_ids, l1) == insert_entry(flat(ids, l0), key, data)
            &&& sorted(flat(new_ids, l1))
            &&& ids.len() == 1 && flat(ids, l0).len() < cap ==> new_ids.len() == 1
            &&& ids.len() == 1 && flat(ids, l0).len() == cap ==> {
                &&& new_ids.len() == 2
                &&& l1[new_ids[0] as int].data@ == flat(new_ids, l1).take(half)
                &&& l1[new_ids[1] as int].data@ == flat(new_ids, l1).skip(half)
            }
        }),
{
    let ids = leaf_ids(r0);
    let new_ids = leaf_ids(r1) + opt_ids(sp);
    let p = route(r0, key);
    lemma_node_facts(r0, l0, cap);
    lemma_route_bounds(r0, l0, cap, key);
    lemma_chain_insert(ids, new_ids, l0, l1, p);
    lemma_node_facts(r1, l1, cap);
    lemma_insert_entry_sorted(flat(ids, l0), key, data);
    if ids.len() == 1 {
        let h = ids[0];
        assert(p == 0);
        assert(ids =~= seq![h]);
        lemma_flat_one(h, l0);
        if l1.len() == l0.len() {
            lemma_flat_one(h, l1);
            assert(leaf_ids(r1).len() >= 1);
            assert(new_ids.len() == 1);
            assert(new_ids[0] == h);
            assert(wf_leaf(l1[h as int], cap));
        } else {
            let n0 = l0.len() as usize;
            assert(new_ids =~= seq![h] + seq![n0]);
            lemma_flat_append(seq![h], seq![n0], l1);
            lemma_flat_one(h, l1);
            lemma_flat_one(n0, l1);
            let half = ((cap + 1) / 2) as int;
            assert(flat(new_ids, l1).take(half) =~= l1[h as int].data@);
            assert(flat(new_ids, l1).skip(half) =~= l1[n0 as int].data@);
        }
    }
}

/// Looking a key up in the leaf it routes to finds it exactly when the node
/// holds it.
pub proof fn lemma_search_leaf(n: Node, leaves: Seq<LeafNode>, cap: usize, k: Key)
    requires
        wf_node(n, leaves, cap),
    ensures
        ({
            let d = leaves[leaf_ids(n)[route(n, k)] as int].data@;
            &&& has_key(entries(n, leaves), k) <==> has_key(d, k)
            &&& forall|x: DataPair| d.contains(x) ==> entries(n, leaves).contains(x)
        }),
{
    lemma_route_bounds(n, leaves, cap, k);
    lemma_node_facts(n, leaves, cap);
    let ids = leaf_ids(n);
    let p = route(n, k);
    let pre = flat(ids.take(p), leaves);
    let d = leaves[ids[p] as int].data@;
    let post = flat(ids.skip(p + 1), leaves);
    let all = entries(n, leaves);
    lemma_node_facts(n, leaves, cap);
    assert(wf_leaf(leaves[ids[p] as int], cap));
    assert forall|x: DataPair| d.contains(x) implies all.contains(x) by {
        let j = choose|j: int| 0 <= j < d.len() && d[j] == x;
        assert(all[pre.len() + j] == x);
    }
    if has_key(all, k) {
        let i = choose|i: int| 0 <= i < all.len() && all[i].key == k;
        if i < pre.len() {
            assert(all[i] == pre[i]);
            assert(p > 0) by {
                if p == 0 {
                    assert(ids.take(0) =~= Seq::<usize>::empty());
                    assert(flat(ids.take(0), leaves) =~= Seq::<DataPair>::empty());
                }
            }
            assert(all[pre.len() as int] == d[0]);
            assert(d[0].key == k);
        } else if i < pre.len() + d.len() {
            assert(all[i] == d[i - pre.len()]);
        } else {
            assert(all[i] == post[i - pre.len() - d.len()]);
        }
    }
    if has_key(d, k) {
        let j = choose|j: int| 0 <= j < d.len() && d[j].key == k;
        assert(all[pre.len() + j] == d[j]);
    }
}

/// The entries after inserting `pairs`, one after the other, into an empty
/// tree.
pub open spec fn build(pairs: Seq<DataPair>) -> Seq<DataPair>
    decreases pairs.len(),
{
    if pairs.len() == 0 {
        seq![]
    } else {
        insert_entry(build(pairs.drop_last()), pairs.last().key, pairs.last().value)
    }
}

/// Inserting pairs with distinct keys keeps exactly those pairs, with
/// distinct keys.
pub proof fn lemma_build(pairs: Seq<DataPair>)
    requires
        distinct_keys(pairs),
    ensures
        distinct_keys(build(pairs)),
        sorted(build(pairs)),
        forall|y: DataPair| build(pairs).contains(y) <==> pairs.contains(y),
    decreases pairs.len(),
{
    if pairs.len() > 0 {
        let t = pairs.drop_last();
        let x = pairs.last();
        assert forall|i: int, j: int| 0 <= i < j < t.len() implies t[i].key != t[j].key by {
            assert(t[i] == pairs[i] && t[j] == pairs[j]);
        }
        lemma_build(t);
        let s = build(t);
        let c = count_le(s, x.key);
        lemma_count_le_bounds(s, x.key);
        lemma_insert_entry_sorted(s, x.key, x.value);
        let b = build(pairs);
        assert(b == s.insert(c as int, x));
        assert forall|y: DataPair| b.contains(y) <==> pairs.contains(y) by {
            if b.contains(y) {
                let j = choose|j: int| 0 <= j < b.len() && b[j] == y;
                if j < c {
                    assert(s[j] == y);
                    assert(t.contains(y));
                    let q = choose|q: int| 0 <= q < t.len() && t[q] == y;
                    assert(pairs[q] == y);
                } else if j == c {
                    assert(pairs[pairs.len() - 1] == y);
                } else {
                    assert(s[j - 1] == y);
                    assert(t.contains(y));
                    let q = choose|q: int| 0 <= q < t.len() && t[q] == y;
                    assert(pairs[q] == y);
                }
            }
            if pairs.contains(y) {
                let q = choose|q: int| 0 <= q < pairs.len() && pairs[q] == y;
                if q == pairs.len() - 1 {
                    assert(b[c as int] == y);
                } else {
                    assert(t[q] == y);
                    assert(t.contains(y));
                    assert(s.contains(y));
                    let j = choose|j: int| 0 <= j < s.len() && s[j] == y;
                    if j < c {
                        assert(b[j] == y);
                    } else {
                        assert(b[j + 1] == y);
                    }
                }
            }
        }
        // the new key differs from every key already there
        assert forall|j: int| 0 <= j < s.len() implies s[j].key != x.key by {
            assert(s.contains(s[j]));
            assert(t.contains(s[j]));
            let q = choose|q: int| 0 <= q < t.len() && t[q] == s[j];
            assert(pairs[q] == t[q]);
            assert(pairs[q].key != pairs[pairs.len() - 1].key);
        }
        assert forall|i: int, j: int| 0 <= i < j < b.len() implies b[i].key != b[j].key by {
            if i < c && j < c {
                assert(b[i] == s[i] && b[j] == s[j]);
            } else if i < c && j == c {
                assert(b[i] == s[i]);
            } else if i < c {
                assert(b[i] == s[i] && b[j] == s[j - 1]);
            } else if i == c {
                assert(b[j] == s[j - 1]);
            } else {
                assert(b[i] == s[i - 1] && b[j] == s[j - 1]);
            }
        }
    }
}

/// Some entry of `s` has a key above `hi`.
pub open spec fn holds_above(s: Seq<DataPair>, hi: Key) -> bool {
    exists|e: int| 0 <= e < s.len() && (#[trigger] s[e]).key > hi
}

/// The position of the last leaf a range scan reads when it enters the
/// chain `ids` at position `q`: the first leaf from there on that holds a key
/// above `hi`, or the last leaf of the chain.
pub open spec fn scan_end(ids: Seq<usize>, leaves: Seq<LeafNode>, q: int, hi: Key) -> int
    decreases ids.len() - q,
{
    if q >= ids.len() - 1 {
        ids.len() - 1
    } else if holds_above(leaves[ids[q] as int].data@, hi) {
        q
    } else {
        scan_end(ids, leaves, q + 1, hi)
    }
}

/// The values with keys of at most `hi` in the leaves at positions
/// `from .. to` of the chain `ids`, leaf after leaf.
pub open spec fn chain_vals(ids: Seq<usize>, leaves: Seq<LeafNode>, from: int, to: int, hi: Key) -> Seq<
    Data,
>
    decreases to - from,
{
    if to <= from {
        seq![]
    } else {
        chain_vals(ids, leaves, from, to - 1, hi) + in_range(leaves[ids[to - 1] as int].data@, 0, hi)
    }
}

/// Where no key is below `lo`, bounding keys from below by `lo` changes nothing.
pub proof fn lemma_in_range_lower(s: Seq<DataPair>, lo: Key, hi: Key)
    requires
        forall|e: int| 0 <= e < s.len() ==> (#[trigger] s[e]).key >= lo,
    ensures
        in_range(s, 0, hi) == in_range(s, lo, hi),
    decreases s.len(),
{
    if s.len() > 0 {
        let t = s.drop_last();
        assert forall|e: int| 0 <= e < t.len() implies (#[trigger] t[e]).key >= lo by {
            assert(t[e] == s[e]);
        }
        lemma_in_range_lower(t, lo, hi);
        assert(s[s.len() - 1].key >= lo);
    }
}

/// The number of levels below `n`, read along its first children.
pub open spec fn node_height(n: Node) -> nat
    decreases n,
{
    match n {
        Node::Leaf(_) => 0,
        Node::Internal(i) => if i.nodes@.len() > 0 {
            1 + node_height(i.nodes@[0].value)
        } else {
            1
        },
    }
}

/// Every leaf under `n` lies `h` levels below it.
pub open spec fn at_depth(n: Node, h: nat) -> bool
    decreases n,
{
    match n {
        Node::Leaf(_) => h == 0,
        Node::Internal(i) => h > 0 && i.nodes@.len() > 0 && pairs_at_depth(i.nodes@, (h - 1) as nat),
    }
}

pub open spec fn pairs_at_depth(ps: Seq<NodePair>, h: nat) -> bool
    decreases ps,
{
    ps.len() == 0 || (pairs_at_depth(ps.drop_last(), h) && at_depth(ps.last().value, h))
}

pub proof fn lemma_pairs_at_depth(ps: Seq<NodePair>, h: nat)
    ensures
        pairs_at_depth(ps, h) <==> forall|j: int| 0 <= j < ps.len() ==> #[trigger] at_depth(ps[j].value, h),
    decreases ps.len(),
{
    if ps.len() > 0 {
        let t = ps.drop_last();
        lemma_pairs_at_depth(t, h);
        if forall|j: int| 0 <= j < ps.len() ==> #[trigger] at_depth(ps[j].value, h) {
            assert forall|j: int| 0 <= j < t.len() implies #[trigger] at_depth(t[j].value, h) by {
                assert(t[j] == ps[j]);
            }
            assert(at_depth(ps[ps.len() - 1].value, h));
        }
        if pairs_at_depth(ps, h) {
            assert forall|j: int| 0 <= j < ps.len() implies #[trigger] at_depth(ps[j].value, h) by {
                if j < t.len() {
                    assert(t[j] == ps[j]);
                }
            }
        }
    }
}

/// A node whose leaves all lie `h` levels below it has height `h`.
pub proof fn lemma_at_depth_height(n: Node, h: nat)
    requires
        at_depth(n, h),
    ensures
        node_height(n) == h,
    decreases n,
{
    if let Node::Internal(i) = n {
        lemma_pairs_at_depth(i.nodes@, (h - 1) as nat);
        assert(at_depth(i.nodes@[0].value, (h - 1) as nat));
        lemma_at_depth_height(i.nodes@[0].value, (h - 1) as nat);
    }
}

/// Children that all lie at one depth still do after the routed child was
/// replaced by nodes at that depth, and any run of them does too.
pub proof fn lemma_depth_replace(
    ps: Seq<NodePair>,
    c: int,
    n2: Node,
    r: Option<Node>,
    l1: Seq<LeafNode>,
    h: nat,
)
    requires
        0 <= c < ps.len(),
        pairs_at_depth(ps, h),
        at_depth(n2, h),
        r matches Some(s) ==> at_depth(s, h),
    ensures
        forall|lo: int, hi: int|
            0 <= lo <= hi <= ps.len() + (if r is Some { 1int } else { 0int }) ==> #[trigger] pairs_at_depth(
                (ps.take(c) + replacement(n2, r, l1) + ps.skip(c + 1)).subrange(lo, hi),
                h,
            ),
{
    let mid = replacement(n2, r, l1);
    let ps1 = ps.take(c) + mid + ps.skip(c + 1);
    lemma_pairs_at_depth(ps, h);
    assert forall|j: int| 0 <= j < ps1.len() implies #[trigger] at_depth(ps1[j].value, h) by {
        if j < c {
            assert(ps1[j] == ps[j]);
        } else if j < c + mid.len() {
            assert(ps1[j] == mid[j - c]);
        } else {
            assert(ps1[j] == ps[j - mid.len() + 1]);
        }
    }
    assert forall|lo: int, hi: int|
        0 <= lo <= hi <= ps1.len() implies #[trigger] pairs_at_depth(ps1.subrange(lo, hi), h) by {
        let s = ps1.subrange(lo, hi);
        assert forall|j: int| 0 <= j < s.len() implies #[trigger] at_depth(s[j].value, h) by {
            assert(s[j] == ps1[lo + j]);
        }
        lemma_pairs_at_depth(s, h);
    }
}

} // verus!
