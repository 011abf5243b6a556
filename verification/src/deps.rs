use vstd::prelude::*;
use crate::assoc::{distinct_keys, lemma_exists_unused_key, lemma_map_domain, lemma_map_push,
    lemma_map_lookup, lemma_map_remove, pairs_to_map, seq_has_key};

verus! {

/// Something that must be told when a node's frame changes: a downstream
/// node (with the input slot that reads the changed node) or a subscription.
#[derive(Clone, Copy, PartialEq, Eq, Structural, Debug)]
pub enum Dependent {
    Node { id: u128, index: u32 },
    Subscription { id: u128 },
}

/// A node's reverse-dependency list: dependents in insertion order, each
/// under a stable key. Removing one entry neither shifts the others nor
/// disturbs the keys they were issued.
#[derive(Debug)]
pub struct RevList {
    items: Vec<(u128, Dependent)>,
}

impl View for RevList {
    type V = Seq<(u128, Dependent)>;

    closed spec fn view(&self) -> Seq<(u128, Dependent)> {
        self.items@
    }
}

impl RevList {
    /// No two entries share a key.
    pub open spec fn wf(self) -> bool {
        distinct_keys(self@)
    }

    /// The list as a key-to-dependent table.
    pub open spec fn slots(self) -> Map<u128, Dependent> {
        pairs_to_map(self@)
    }

    pub open spec fn has_slot(self, key: u128) -> bool {
        seq_has_key(self@, key)
    }

    pub fn new() -> (r: RevList)
        ensures
            r@ == Seq::<(u128, Dependent)>::empty(),
            r.wf(),
    {
        RevList { items: Vec::new() }
    }

    pub fn len(&self) -> (n: usize)
        ensures
            n == self@.len(),
    {
        self.items.len()
    }

    /// The entry at position `i`, in insertion order.
    pub fn entry(&self, i: usize) -> (e: (u128, Dependent))
        requires
            i < self@.len(),
        ensures
            e == self@[i as int],
    {
        self.items[i]
    }

    /// An exact copy of the list.
    pub fn duplicate(&self) -> (r: RevList)
        ensures
            r@ == self@,
    {
        let mut items: Vec<(u128, Dependent)> = Vec::new();
        for i in 0..self.items.len()
            invariant
                items@.len() == i,
                forall|j: int| 0 <= j < i ==> items@[j] == self@[j],
        {
            items.push(self.items[i]);
        }
        let r = RevList { items };
        proof {
            assert(r@ =~= self@);
        }
        r
    }

    /// Where `key` sits in the list, if it does.
    fn find(&self, key: u128) -> (r: Option<usize>)
        ensures
            match r {
                Some(i) => i < self@.len() && self@[i as int].0 == key,
                None => !seq_has_key(self@, key),
            },
    {
        for i in 0..self.items.len()
            invariant
                forall|j: int| 0 <= j < i ==> (#[trigger] self@[j]).0 != key,
        {
            if self.items[i].0 == key {
                return Some(i);
            }
        }
        None
    }

    /// Whether some entry carries `key`.
    pub fn contains_key(&self, key: u128) -> (r: bool)
        ensures
            r == self.has_slot(key),
    {
        match self.find(key) {
            Some(_) => true,
            None => false,
        }
    }

    /// Appends a dependent under a fresh key and hands the key out. The
    /// key is the smallest one not in use, so allocation is a function of
    /// the keys already taken.
    pub fn insert(&mut self, d: Dependent) -> (key: u128)
        requires
            old(self).wf(),
        ensures
            final(self).wf(),
            !old(self).has_slot(key),
            forall|k2: u128| k2 < key ==> old(self).has_slot(k2),
            final(self)@ == old(self)@.push((key, d)),
            final(self).slots() == old(self).slots().insert(key, d),
    {
        let len = self.items.len();
        proof {
            assert(len <= usize::MAX);
            lemma_exists_unused_key(self.items@);
        }
        let ghost free = choose|k: u128| k <= old(self)@.len() && !seq_has_key(old(self)@, k);
        let mut key: u128 = 0;
        let mut used = self.contains_key(key);
        while used
            invariant
                *self == *old(self),
                key <= free,
                used == self.has_slot(key),
                forall|k2: u128| k2 < key ==> old(self).has_slot(k2),
                !seq_has_key(old(self)@, free),
            decreases free - key,
        {
            proof {
                assert(key != free);
            }
            key = key + 1;
            used = self.contains_key(key);
        }
        proof {
            lemma_map_push(self@, key, d);
            let pushed = self@.push((key, d));
            assert forall|x: int, y: int| 0 <= x < y < pushed.len() implies (#[trigger] pushed[x]).0
                != (#[trigger] pushed[y]).0 by {
                if y < pushed.len() - 1 {
                    assert(pushed[x] == self@[x]);
                    assert(pushed[y] == self@[y]);
                } else {
                    assert(pushed[x] == self@[x]);
                }
            }
        }
        self.items.push((key, d));
        key
    }

    /// Removes the entry under `key`, if any; the other entries keep both
    /// their order and their keys.
    pub fn remove(&mut self, key: u128)
        requires
            old(self).wf(),
        ensures
            final(self).wf(),
            final(self).slots() =~= old(self).slots().remove(key),
            !old(self).has_slot(key) ==> final(self)@ == old(self)@,
            old(self).has_slot(key) ==> exists|i: int|
                0 <= i < old(self)@.len() && (#[trigger] old(self)@[i]).0 == key && final(self)@
                    == old(self)@.remove(i),
    {
        let idx = self.find(key);
        match idx {
            Some(i) => {
                proof {
                    lemma_map_remove(self@, i as int);
                }
                self.items.remove(i);
            },
            None => {
                proof {
                    lemma_map_domain(self@);
                    assert(!self.slots().contains_key(key));
                    assert(self.slots() =~= self.slots().remove(key));
                }
            },
        }
    }
}

/// An entry of the list is exactly a binding of the key table.
pub proof fn lemma_revlist_lookup(l: RevList, j: int)
    requires
        l.wf(),
        0 <= j < l@.len(),
    ensures
        l.slots().contains_key(l@[j].0),
        l.slots()[l@[j].0] == l@[j].1,
{
    lemma_map_lookup(l@, j);
}

/// A key is in the table exactly when some entry carries it.
pub proof fn lemma_revlist_domain(l: RevList)
    ensures
        forall|k: u128| #[trigger] l.slots().contains_key(k) <==> l.has_slot(k),
{
    lemma_map_domain(l@);
}

/// The dependency edges of one node: `forward[i]` names the upstream bound
/// in input slot `i` together with the key of this node's entry in that
/// upstream's reverse list; `reverse` lists this node's own dependents.
#[derive(Debug)]
pub struct Dependencies {
    pub forward: Vec<Option<(u128, u128)>>,
    pub reverse: RevList,
}

impl Dependencies {
    pub open spec fn wf(self) -> bool {
        self.reverse.wf()
    }

    /// Edges for a node with no inputs and no dependents yet.
    pub fn empty() -> (r: Dependencies)
        ensures
            r.forward@ == Seq::<Option<(u128, u128)>>::empty(),
            r.reverse@ == Seq::<(u128, Dependent)>::empty(),
            r.wf(),
    {
        Dependencies { forward: Vec::new(), reverse: RevList::new() }
    }

    /// An exact copy of the edge record.
    pub fn duplicate(&self) -> (r: Dependencies)
        ensures
            r.forward@ == self.forward@,
            r.reverse@ == self.reverse@,
    {
        let mut forward: Vec<Option<(u128, u128)>> = Vec::new();
        for i in 0..self.forward.len()
            invariant
                forward@.len() == i,
                forall|j: int| 0 <= j < i ==> forward@[j] == self.forward@[j],
        {
            forward.push(self.forward[i]);
        }
        proof {
            assert(forward@ =~= self.forward@);
        }
        Dependencies { forward, reverse: self.reverse.duplicate() }
    }
}

} // verus!
