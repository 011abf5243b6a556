use vstd::prelude::*;
use std::collections::HashMap;
use crate::assoc::{distinct_keys, lemma_map_domain, lemma_map_lookup, lemma_map_push,
    lemma_map_update, pairs_to_map, seq_has_key};
use crate::maplike::MapLike;

verus! {

broadcast use vstd::std_specs::hash::group_hash_axioms;

/// A copy-on-write overlay over a base table. Reads see the overlay first
/// and fall back to the base; writes go to the overlay alone. Dropping the
/// transaction leaves the base exactly as it was; `commit` folds every
/// staged entry into it.
pub struct Transaction<V> {
    overlay: Vec<(u128, V)>,
}

impl<V> Transaction<V> {
    /// What the transaction has staged.
    pub closed spec fn overlay_map(&self) -> Map<u128, V> {
        pairs_to_map(self.overlay@)
    }

    /// The overlay never stages two entries for one key.
    pub closed spec fn wf(&self) -> bool {
        distinct_keys(self.overlay@)
    }

    /// The table a reader sees: the base, with every staged entry on top.
    pub open spec fn staged(&self, base: Map<u128, V>) -> Map<u128, V> {
        base.union_prefer_right(self.overlay_map())
    }

    /// Opens an empty transaction.
    pub fn new() -> (t: Transaction<V>)
        ensures
            t.wf(),
            t.overlay_map() == Map::<u128, V>::empty(),
            forall|b: Map<u128, V>| #[trigger] t.staged(b) =~= b,
    {
        let t = Transaction { overlay: Vec::new() };
        proof {
            assert(t.overlay_map() =~= Map::<u128, V>::empty());
        }
        t
    }

    /// Where `key` sits in the overlay, if it does.
    fn find(&self, key: u128) -> (r: Option<usize>)
        ensures
            match r {
                Some(i) => i < self.overlay@.len() && self.overlay@[i as int].0 == key,
                None => !seq_has_key(self.overlay@, key),
            },
    {
        for i in 0..self.overlay.len()
            invariant
                forall|j: int| 0 <= j < i ==> (#[trigger] self.overlay@[j]).0 != key,
        {
            if self.overlay[i].0 == key {
                return Some(i);
            }
        }
        None
    }

    /// Reads through the overlay into the base.
    pub fn get<'a>(&'a self, base: &'a HashMap<u128, V>, key: u128) -> (r: Option<&'a V>)
        requires
            self.wf(),
        ensures
            match r {
                Some(v) => self.staged(base@).contains_key(key) && *v == self.staged(base@)[key],
                None => !self.staged(base@).contains_key(key),
            },
    {
        proof {
            lemma_map_domain(self.overlay@);
        }
        match self.find(key) {
            Some(i) => {
                proof {
                    lemma_map_lookup(self.overlay@, i as int);
                }
                Some(&self.overlay[i].1)
            },
            None => base.get(&key),
        }
    }

    /// Whether the staged table has an entry for `key`.
    pub fn contains(&self, base: &HashMap<u128, V>, key: u128) -> (r: bool)
        requires
            self.wf(),
        ensures
            r == self.staged(base@).contains_key(key),
    {
        match self.get(base, key) {
            Some(_) => true,
            None => false,
        }
    }

    /// Stages a write; the base is untouched.
    pub fn insert(&mut self, key: u128, val: V)
        requires
            old(self).wf(),
        ensures
            final(self).wf(),
            final(self).overlay_map() == old(self).overlay_map().insert(key, val),
            forall|b: Map<u128, V>| #[trigger] final(self).staged(b) =~= old(self).staged(b).insert(
                key,
                val,
            ),
    {
        let found = self.find(key);
        match found {
            Some(i) => {
                proof {
                    lemma_map_update(self.overlay@, i as int, key, val);
                }
                self.overlay.set(i, (key, val));
            },
            None => {
                proof {
                    lemma_map_push(self.overlay@, key, val);
                    let pushed = self.overlay@.push((key, val));
                    assert forall|x: int, y: int| 0 <= x < y < pushed.len() implies (
                    #[trigger] pushed[x]).0 != (#[trigger] pushed[y]).0 by {
                        if y < pushed.len() - 1 {
                            assert(pushed[x] == self.overlay@[x]);
                            assert(pushed[y] == self.overlay@[y]);
                        } else {
                            assert(pushed[x] == self.overlay@[x]);
                            assert(!seq_has_key(self.overlay@, key));
                        }
                    }
                }
                self.overlay.push((key, val));
            },
        }
    }

    /// A mutable handle on the staged entry for `key`: a key the base knows
    /// is first copied into the overlay, so the mutation never touches the
    /// base. `None` when neither table knows the key.
    pub fn get_mut<'a>(&'a mut self, base: &HashMap<u128, V>, key: u128) -> (r: Option<
        &'a mut V,
    >) where V: Copy
        requires
            old(self).wf(),
        ensures
            final(self).wf(),
            match r {
                Some(entry) => {
                    &&& old(self).staged(base@).contains_key(key)
                    &&& *entry == old(self).staged(base@)[key]
                    &&& forall|b: Map<u128, V>| #[trigger] final(self).staged(b) =~= old(
                        self,
                    ).staged(b).insert(key, *final(entry))
                },
                None => {
                    &&& !old(self).staged(base@).contains_key(key)
                    &&& *final(self) == *old(self)
                },
            },
    {
        proof {
            lemma_map_domain(self.overlay@);
        }
        let idx: usize = match self.find(key) {
            Some(i) => i,
            None => {
                match base.get(&key) {
                    Some(v) => {
                        let n = self.overlay.len();
                        proof {
                            lemma_map_push(self.overlay@, key, *v);
                            let pushed = self.overlay@.push((key, *v));
                            assert forall|x: int, y: int| 0 <= x < y < pushed.len() implies (
                            #[trigger] pushed[x]).0 != (#[trigger] pushed[y]).0 by {
                                if y < pushed.len() - 1 {
                                    assert(pushed[x] == self.overlay@[x]);
                                    assert(pushed[y] == self.overlay@[y]);
                                } else {
                                    assert(pushed[x] == self.overlay@[x]);
                                }
                            }
                        }
                        self.overlay.push((key, *v));
                        n
                    },
                    None => {
                        return None;
                    },
                }
            },
        };
        proof {
            lemma_map_lookup(self.overlay@, idx as int);
            assert forall|v: V| distinct_keys(self.overlay@.update(idx as int, (key, v))) by {
                lemma_map_update(self.overlay@, idx as int, key, v);
            }
            assert forall|v: V, b: Map<u128, V>| #[trigger] b.union_prefer_right(
                pairs_to_map(self.overlay@.update(idx as int, (key, v))),
            ) =~= old(self).staged(b).insert(key, v) by {
                lemma_map_update(self.overlay@, idx as int, key, v);
            }
        }
        Some(&mut self.overlay[idx].1)
    }

    /// The overlay stages only finitely many entries.
    pub proof fn lemma_overlay_finite(&self)
        ensures
            self.overlay_map().dom().finite(),
    {
        crate::assoc::lemma_map_card(self.overlay@);
    }

    /// Folds every staged entry into the base, overwriting.
    pub fn commit(self, base: &mut HashMap<u128, V>)
        requires
            self.wf(),
        ensures
            final(base)@ =~= self.staged(old(base)@),
    {
        let ghost target = self.staged(old(base)@);
        let mut overlay = self.overlay;
        proof {
            lemma_map_domain(overlay@);
        }
        while overlay.len() > 0
            invariant
                distinct_keys(overlay@),
                base@.union_prefer_right(pairs_to_map(overlay@)) =~= target,
            decreases overlay.len(),
        {
            let pair_opt = overlay.pop();
            match pair_opt {
                Some((k, v)) => {
                    proof {
                        let prev = overlay@.push((k, v));
                        assert(prev.drop_last() =~= overlay@);
                        lemma_map_domain(overlay@);
                        assert(!seq_has_key(overlay@, k));
                        assert(pairs_to_map(prev) == pairs_to_map(overlay@).insert(k, v));
                        assert(base@.insert(k, v).union_prefer_right(pairs_to_map(overlay@))
                            =~= base@.union_prefer_right(pairs_to_map(prev)));
                    }
                    base.insert(k, v);
                },
                None => {
                    proof {
                        assert(false);
                    }
                },
            }
        }
        proof {
            assert(pairs_to_map(overlay@) =~= Map::<u128, V>::empty());
        }
    }
}

/// A read-only view of a base table together with an open transaction over
/// it: what the table will hold if the transaction commits.
pub struct Staged<'a, V> {
    pub base: &'a HashMap<u128, V>,
    pub tx: &'a Transaction<V>,
}

impl<'a, V> MapLike<V> for Staged<'a, V> {
    open spec fn contents(&self) -> Map<u128, V> {
        self.tx.staged(self.base@)
    }

    open spec fn inv(&self) -> bool {
        self.tx.wf()
    }

    fn get(&self, key: u128) -> (r: Option<&V>) {
        self.tx.get(self.base, key)
    }

    fn contains(&self, key: u128) -> (r: bool) {
        match self.get(key) {
            Some(_) => true,
            None => false,
        }
    }
}

} // verus!
