//! The connection table of a websocket broadcast server: connected peers by
//! id, and who receives a message that one of them sends.

use vstd::prelude::*;
use std::collections::HashMap;
use vstd::std_specs::iter::IteratorSpec;

verus! {

broadcast use vstd::std_specs::hash::group_hash_axioms;

/// Connected peers, each under its own id, with whatever the server keeps
/// per peer (its outgoing channel).
pub struct PeerTable<V> {
    peers: HashMap<u64, V>,
}

impl<V> View for PeerTable<V> {
    type V = Map<u64, V>;

    closed spec fn view(&self) -> Map<u64, V> {
        self.peers@
    }
}

impl<V> PeerTable<V> {
    /// A table with no peers.
    pub fn new() -> (t: Self)
        ensures
            t@ == Map::<u64, V>::empty(),
    {
        PeerTable { peers: HashMap::new() }
    }

    /// Records a newly connected peer (replacing an earlier entry under the
    /// same id).
    pub fn insert(&mut self, id: u64, peer: V)
        ensures
            final(self)@ == old(self)@.insert(id, peer),
    {
        let _ = self.peers.insert(id, peer);
    }

    /// Forgets a peer that has disconnected.
    pub fn remove(&mut self, id: u64)
        ensures
            final(self)@ == old(self)@.remove(id),
    {
        let _ = self.peers.remove(&id);
    }

    /// The entry of peer `id`, if it is connected.
    pub fn get(&self, id: u64) -> (p: Option<&V>)
        ensures
            match p {
                Some(v) => self@.contains_key(id) && *v == self@[id],
                None => !self@.contains_key(id),
            },
    {
        self.peers.get(&id)
    }

    /// The ids of every connected peer except `sender`, each once: those to
    /// which a message from `sender` is forwarded.
    pub fn recipients(&self, sender: u64) -> (ids: Vec<u64>)
        ensures
            ids@.no_duplicates(),
            ids@.to_set() == self@.dom().remove(sender),
    {
        let mut ids: Vec<u64> = Vec::new();
        let ghost keys = self.peers.keys().remaining();
        let ghost mut seen: int = 0;
        for k in it: self.peers.keys()
            invariant
                it.seq() == keys,
                seen == it.index(),
                keys.unref().to_set() == self@.dom(),
                keys.no_duplicates(),
                ids@.no_duplicates(),
                forall|x: u64|
                    ids@.contains(x) <==> (x != sender && exists|j: int|
                        0 <= j < seen && *keys[j] == x),
        {
            assert(*k == *keys[seen]);
            let ghost before = ids@;
            if *k != sender {
                proof {
                    assert forall|j: int| 0 <= j < seen implies *keys[j] != *k by {
                        assert(keys[j] != keys[seen]);
                    }
                    assert(!before.contains(*k));
                }
                ids.push(*k);
                proof {
                    assert forall|a: int, b: int|
                        0 <= a < ids@.len() && 0 <= b < ids@.len() && a != b implies ids@[a]
                        != ids@[b] by {
                        if a == ids@.len() - 1 {
                            assert(before.contains(ids@[b]));
                        } else if b == ids@.len() - 1 {
                            assert(before.contains(ids@[a]));
                        }
                    }
                }
            }
            proof {
                assert forall|x: u64|
                    ids@.contains(x) <==> (x != sender && exists|j: int|
                        0 <= j < seen + 1 && *keys[j] == x) by {
                    if ids@.contains(x) {
                        if x != *k || *k == sender {
                            let i = choose|i: int| 0 <= i < ids@.len() && ids@[i] == x;
                            assert(before[i] == x);
                            assert(before.contains(x));
                        } else {
                            assert(*keys[seen] == x);
                        }
                    }
                    if x != sender && exists|j: int| 0 <= j < seen + 1 && *keys[j] == x {
                        let j = choose|j: int| 0 <= j < seen + 1 && *keys[j] == x;
                        if j == seen {
                            assert(ids@[ids@.len() - 1] == x);
                        } else {
                            assert(before.contains(x));
                            let i = choose|i: int| 0 <= i < before.len() && before[i] == x;
                            assert(ids@[i] == x);
                        }
                    }
                }
                seen = seen + 1;
            }
        }
        assert(seen == keys.len());
        proof {
            assert forall|x: u64| ids@.to_set().contains(x) <==> self@.dom().remove(sender).contains(x) by {
                if self@.dom().contains(x) && x != sender {
                    assert(keys.unref().to_set().contains(x));
                    let j = choose|j: int| 0 <= j < keys.unref().len() && keys.unref()[j] == x;
                    assert(*keys[j] == x);
                }
                if ids@.contains(x) {
                    let j = choose|j: int| 0 <= j < seen && *keys[j] == x;
                    assert(keys.unref()[j] == x);
                }
            }
            assert(ids@.to_set() =~= self@.dom().remove(sender));
        }
        ids
    }
}

/// Law: a message is never forwarded back to its sender, nor to a peer that
/// has disconnected; every other connected peer receives it.
pub proof fn lemma_forwarding_targets<V>(peers: Map<u64, V>, sender: u64, gone: u64, other: u64)
    ensures
        !peers.dom().remove(sender).contains(sender),
        !peers.remove(gone).dom().remove(sender).contains(gone),
        other != sender && peers.contains_key(other) ==> peers.dom().remove(sender).contains(other),
{
}

} // verus!
