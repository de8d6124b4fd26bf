//! A tree over payloads of any type: each inserted payload is kept in an
//! append-only store under an id equal to its position there, and the index
//! maps keys to those ids.
use vstd::prelude::*;
use crate::node::{Key, DataPair};
use crate::model::{has_key, insert_entry, count_le};
use crate::tree::BPlusTree as Index;

verus! {

/// A payload together with the id it is stored under.
pub struct Data<T> {
    id: usize,
    data: T,
    next_id: Option<usize>,
}

impl<T> Data<T> {
    pub closed spec fn id(&self) -> usize {
        self.id
    }

    pub closed spec fn payload(&self) -> T {
        self.data
    }

    pub closed spec fn next_id(&self) -> Option<usize> {
        self.next_id
    }

    pub fn new(id: usize, data: T) -> (r: Self)
        ensures
            r.id() == id,
            r.payload() == data,
            r.next_id() is None,
    {
        Data { id, data, next_id: None }
    }
}

pub struct BPlusTree<T> {
    cap: usize,
    node: Index,
    data: Vec<Data<T>>,
}

impl<T> BPlusTree<T> {
    /// The key and id entries of the index, in key order.
    pub closed spec fn index_entries(&self) -> Seq<DataPair> {
        self.node.entries()
    }

    /// The number of payloads stored so far.
    pub closed spec fn stored(&self) -> nat {
        self.data@.len()
    }

    /// Every entry as a key and its payload, in key order.
    pub closed spec fn entries(&self) -> Seq<(Key, T)> {
        self.node.entries().map_values(|e: DataPair| (e.key, self.data@[e.value as int].data))
    }

    pub closed spec fn capacity(&self) -> usize {
        self.cap
    }

    pub closed spec fn wf(&self) -> bool {
        &&& self.node.wf()
        &&& self.node.capacity() == self.cap
        &&& forall|i: int|
            0 <= i < self.node.entries().len() ==> (#[trigger] self.node.entries()[i]).value
                < self.data@.len()
        &&& forall|i: int| 0 <= i < self.data@.len() ==> (#[trigger] self.data@[i]).id == i
    }

    pub fn new(cap: usize) -> (r: Self)
        requires
            cap >= 1,
        ensures
            r.wf(),
            r.capacity() == cap,
            r.index_entries() == Seq::<DataPair>::empty(),
            r.entries() == Seq::<(Key, T)>::empty(),
            r.stored() == 0,
    {
        let node = Index::new(cap);
        let r = BPlusTree { cap, node, data: Vec::new() };
        proof {
            assert(r.entries() =~= Seq::<(Key, T)>::empty());
        }
        r
    }

    /// Stores the payload under the next id, whatever id it came with, and
    /// indexes that id under `key`.
    pub fn insert(&mut self, key: Key, data: Data<T>)
        requires
            old(self).wf(),
        ensures
            final(self).wf(),
            final(self).capacity() == old(self).capacity(),
            final(self).stored() == old(self).stored() + 1,
            final(self).index_entries() == insert_entry(
                old(self).index_entries(),
                key,
                old(self).stored() as usize,
            ),
            final(self).entries() == old(self).entries().insert(
                count_le(old(self).index_entries(), key) as int,
                (key, data.payload()),
            ),
    {
        let ghost e0 = self.node.entries();
        let ghost d0 = self.data@;
        let mut data = data;
        let data_id = self.data.len();
        data.id = data_id;
        self.data.push(data);
        self.node.insert(key, data_id);
        proof {
            let e1 = self.node.entries();
            let d1 = self.data@;
            let c = count_le(e0, key) as int;
            crate::model::lemma_count_le_bounds_any(e0, key);
            assert forall|i: int| 0 <= i < e1.len() implies (#[trigger] e1[i]).value < d1.len() by {
                if i < c {
                    assert(e1[i] == e0[i]);
                } else if i > c {
                    assert(e1[i] == e0[i - 1]);
                }
            }
            assert forall|i: int| 0 <= i < d1.len() implies (#[trigger] d1[i]).id == i by {
                if i < d0.len() {
                    assert(d1[i] == d0[i]);
                }
            }
            assert(self.entries() =~= old(self).entries().insert(c, (key, data.payload()))) by {
                assert forall|i: int| 0 <= i < e1.len() implies #[trigger] self.entries()[i]
                    == old(self).entries().insert(c, (key, data.payload()))[i] by {
                    if i < c {
                        assert(e1[i] == e0[i]);
                        assert(d1[e0[i].value as int] == d0[e0[i].value as int]);
                    } else if i > c {
                        assert(e1[i] == e0[i - 1]);
                        assert(d1[e0[i - 1].value as int] == d0[e0[i - 1].value as int]);
                    }
                }
            }
        }
    }

    /// The payload stored under `key`, found through the index.
    pub fn search(&self, key: Key) -> (r: Option<&T>)
        requires
            self.wf(),
        ensures
            r is Some <==> has_key(self.index_entries(), key),
            r matches Some(v) ==> self.entries().contains((key, *v)),
    {
        match self.node.search(key) {
            None => None,
            Some(id) => {
                proof {
                    let e = self.node.entries();
                    let j = choose|j: int| 0 <= j < e.len() && e[j] == DataPair { key, value: *id };
                    assert(self.entries()[j] == (key, self.data@[*id as int].data));
                }
                Some(&self.data[*id].data)
            },
        }
    }
}

} // verus!
