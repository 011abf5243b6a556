use vstd::prelude::*;
use std::collections::HashMap;
use uuid::Uuid;
use crate::deps::{Dependencies, Dependent, RevList};
use crate::frame::Frame;
use crate::maplike::MapLike;
use crate::node::{frames_view, spec_eval, Node};
use crate::subscription::{GraphUpdate, Subscription, SubscriptionError};
use crate::transaction::{Staged, Transaction};
use tokio::sync::mpsc::Sender;
use vstd::std_specs::iter::IteratorSpec;

verus! {

broadcast use vstd::std_specs::hash::group_hash_axioms, crate::frame::lemma_frame_len;

/// Relies on uuid's `Uuid::new_v4`: a freshly drawn random identifier.
/// Randomness promises nothing, so neither does this.
#[verifier::external_body]
fn fresh_id() -> (r: u128) {
    Uuid::new_v4().as_u128()
}

/// Why a graph operation was refused. A refused mutation leaves the graph
/// exactly as it was.
#[derive(Clone, Copy, PartialEq, Eq, Structural, Debug)]
pub enum Error {
    /// `insert` named an upstream, in the given slot, that does not exist.
    MissingInput(u32),
    /// The operation named a node that does not exist.
    UnknownNode,
    /// The operation named a subscription that does not exist.
    UnknownSubscription,
    /// Something went wrong while setting up a subscription.
    Subscribe(SubscriptionError),
    /// The operation would have closed a dependency cycle.
    Cycle,
    /// A freshly drawn subscription identifier was already taken; the
    /// caller may simply retry.
    IdCollision,
}

/// The reactive scene graph: the node table, the per-node evaluated-frame
/// cache, the dependency edges in both directions, and the live
/// subscriptions.
pub struct SceneGraph {
    subscriptions: HashMap<u128, Subscription>,
    nodes: HashMap<u128, Node>,
    node_states: HashMap<u128, Frame>,
    dependencies: HashMap<u128, Dependencies>,
}

impl SceneGraph {
    pub closed spec fn nodes_map(self) -> Map<u128, Node> {
        self.nodes@
    }

    pub closed spec fn states_map(self) -> Map<u128, Frame> {
        self.node_states@
    }

    pub closed spec fn deps_map(self) -> Map<u128, Dependencies> {
        self.dependencies@
    }

    pub closed spec fn subs_map(self) -> Map<u128, Subscription> {
        self.subscriptions@
    }

    /// The three node tables are kept in step: a node always has a cached
    /// frame and an edge record, and nothing else does.
    pub open spec fn keys_consistent(self) -> bool {
        &&& self.states_map().dom() =~= self.nodes_map().dom()
        &&& self.deps_map().dom() =~= self.nodes_map().dom()
    }

    /// Node identifiers and subscription identifiers never collide.
    pub open spec fn ids_disjoint(self) -> bool {
        forall|id: u128| self.subs_map().contains_key(id) ==> !self.nodes_map().contains_key(id)
    }

    /// Every stored value is itself well formed, and a node's forward edge
    /// list always matches its arity.
    pub open spec fn values_wf(self) -> bool {
        &&& forall|n: u128| #[trigger] self.nodes_map().contains_key(n)
            ==> self.nodes_map()[n].wf()
        &&& forall|n: u128| #[trigger] self.nodes_map().contains_key(n)
            ==> self.deps_map()[n].reverse.wf()
        &&& forall|n: u128| #[trigger] self.nodes_map().contains_key(n)
            ==> self.deps_map()[n].forward@.len() == self.nodes_map()[n].arity()
    }

    /// Forward edges mirror the node's own input slots, and each one holds
    /// a live handle into the upstream's reverse list.
    pub open spec fn forward_matches(self) -> bool {
        forall|n: u128, i: int|
            #![trigger self.deps_map()[n].forward@[i]]
            self.nodes_map().contains_key(n) && 0 <= i < self.deps_map()[n].forward@.len()
                ==> match self.deps_map()[n].forward@[i] {
                Some((m, k)) => {
                    &&& self.nodes_map()[n].dep(i) == Some(m)
                    &&& self.nodes_map().contains_key(m)
                    &&& self.deps_map()[m].reverse.slots().contains_key(k)
                    &&& self.deps_map()[m].reverse.slots()[k] == (Dependent::Node {
                        id: n,
                        index: i as u32,
                    })
                },
                None => self.nodes_map()[n].dep(i) is None,
            }
    }

    /// Every reverse entry is backed: a node entry by the matching forward
    /// edge, a subscription entry by the registered subscription.
    pub open spec fn reverse_matches(self) -> bool {
        forall|m: u128, j: int|
            #![trigger self.deps_map()[m].reverse@[j]]
            self.nodes_map().contains_key(m) && 0 <= j < self.deps_map()[m].reverse@.len()
                ==> match self.deps_map()[m].reverse@[j].1 {
                Dependent::Node { id: n, index: i } => {
                    &&& self.nodes_map().contains_key(n)
                    &&& i < self.deps_map()[n].forward@.len()
                    &&& self.deps_map()[n].forward@[i as int] == Some(
                        (m, self.deps_map()[m].reverse@[j].0),
                    )
                },
                Dependent::Subscription { id: s } => {
                    &&& self.subs_map().contains_key(s)
                    &&& self.subs_map()[s].input == m
                    &&& self.subs_map()[s].slot == self.deps_map()[m].reverse@[j].0
                },
            }
    }

    /// Every subscription watches an existing node and owns exactly the
    /// reverse-list entry its handle names.
    pub open spec fn subs_consistent(self) -> bool {
        forall|s: u128| #[trigger] self.subs_map().contains_key(s) ==> {
            let sub = self.subs_map()[s];
            &&& sub.id == s
            &&& self.nodes_map().contains_key(sub.input)
            &&& sub.input != s
            &&& self.deps_map()[sub.input].reverse.slots().contains_key(sub.slot)
            &&& self.deps_map()[sub.input].reverse.slots()[sub.slot] == (
            Dependent::Subscription { id: s })
        }
    }

    /// The evaluated-frame cache is exact: every node's cached frame is
    /// what the node evaluates to over the cache itself.
    pub open spec fn states_correct(self) -> bool {
        forall|n: u128| #[trigger] self.nodes_map().contains_key(n) ==> self.states_map()[n]@
            == spec_eval(self.nodes_map()[n], frames_view(self.states_map()))
    }

    /// The structural invariants: the tables are linked consistently and
    /// the frame cache is exact.
    pub open spec fn links_wf(self) -> bool {
        &&& self.keys_consistent()
        &&& self.ids_disjoint()
        &&& self.values_wf()
        &&& self.forward_matches()
        &&& self.reverse_matches()
        &&& self.subs_consistent()
        &&& self.states_correct()
    }

    /// Every live subscription remembers exactly the current frame of the
    /// node it watches: the frame last put on its channel is the one the
    /// cache holds, so a change of the cache always reaches the channel.
    pub open spec fn subs_current(self) -> bool {
        forall|s: u128| #[trigger] self.subs_map().contains_key(s)
            ==> self.subs_map()[s].last_frame()
                == self.states_map()[self.subs_map()[s].input]@
    }

    /// The invariants that hold after every committed operation: the linked
    /// tables, the forward edges forming a directed acyclic graph, and every
    /// subscription holding its node's current frame.
    pub open spec fn wf(self) -> bool {
        &&& self.links_wf()
        &&& acyclic(self.nodes_map())
        &&& self.subs_current()
    }

    /// An empty scene graph.
    pub fn new() -> (g: SceneGraph)
        ensures
            g.wf(),
            g.nodes_map() == Map::<u128, Node>::empty(),
            g.states_map() == Map::<u128, Frame>::empty(),
            g.deps_map() == Map::<u128, Dependencies>::empty(),
            g.subs_map() == Map::<u128, Subscription>::empty(),
    {
        let g = SceneGraph {
            subscriptions: HashMap::new(),
            nodes: HashMap::new(),
            node_states: HashMap::new(),
            dependencies: HashMap::new(),
        };
        proof {
            assert(g.nodes_map() =~= Map::<u128, Node>::empty());
            assert(g.states_map() =~= Map::<u128, Frame>::empty());
            assert(g.deps_map() =~= Map::<u128, Dependencies>::empty());
            assert(g.subs_map() =~= Map::<u128, Subscription>::empty());
            assert(edges_increase(g.nodes_map(), Map::<u128, int>::empty()));
        }
        g
    }

    /// A copy of the node stored under `id`.
    pub fn get(&self, id: u128) -> (r: Result<Node, Error>)
        ensures
            match r {
                Ok(node) => self.nodes_map().contains_key(id) && node == self.nodes_map()[id],
                Err(e) => e == Error::UnknownNode && !self.nodes_map().contains_key(id),
            },
    {
        match self.nodes.get(&id) {
            Some(node) => Ok(*node),
            None => Err(Error::UnknownNode),
        }
    }

    /// The node's cached frame, exactly as subscribers would receive it.
    pub fn state(&self, id: u128) -> (r: Result<Frame, Error>)
        ensures
            match r {
                Ok(frame) => self.states_map().contains_key(id) && frame
                    == self.states_map()[id],
                Err(e) => e == Error::UnknownNode && !self.states_map().contains_key(id),
            },
    {
        match self.node_states.get(&id) {
            Some(frame) => Ok(*frame),
            None => Err(Error::UnknownNode),
        }
    }

    /// Every node with its identifier, in no fixed order.
    pub fn list(&self) -> (r: Vec<(u128, Node)>)
        ensures
            r@.len() == self.nodes_map().dom().len(),
            forall|i: int| 0 <= i < r@.len() ==> self.nodes_map().contains_key(
                (#[trigger] r@[i]).0,
            ) && r@[i].1 == self.nodes_map()[r@[i].0],
            forall|k: u128| #[trigger] self.nodes_map().contains_key(k) ==> exists|i: int|
                0 <= i < r@.len() && (#[trigger] r@[i]).0 == k,
    {
        let mut out: Vec<(u128, Node)> = Vec::new();
        let ghost total = self.nodes.iter().remaining();
        proof {
            assert(total.len() == self.nodes@.dom().len());
        }
        for pair in it: self.nodes.iter()
            invariant
                it.seq() == total,
                out@.len() == it.index(),
                forall|i: int| 0 <= i < out@.len() ==> (#[trigger] out@[i])
                    == (*total[i].0, *total[i].1),
        {
            proof {
                assert(pair == it.seq()[it.index()]);
            }
            out.push((*pair.0, *pair.1));
        }
        proof {
            assert(out@.len() == total.len());
        }
        proof {
            assert forall|i: int| 0 <= i < out@.len() implies self.nodes_map().contains_key(
                (#[trigger] out@[i]).0,
            ) && out@[i].1 == self.nodes_map()[out@[i].0] by {
                assert(self.nodes@.contains_key(*total[i].0) && self.nodes@[*total[i].0]
                    == *total[i].1);
            }
            assert forall|k: u128| #[trigger] self.nodes_map().contains_key(k) implies exists|
                i: int,
            |
                0 <= i < out@.len() && (#[trigger] out@[i]).0 == k by {
                assert(total.contains((&k, &self.nodes@[k])));
                let i = choose|i: int| 0 <= i < total.len() && total[i] == (&k, &self.nodes@[k]);
                assert(out@[i].0 == k);
            }
        }
        out
    }

    /// Tells every live subscription that the graph is going away: a
    /// `Closed` notice is sent on each channel, best effort. The graph
    /// itself is untouched; a caller shutting down drops it afterwards.
    pub fn close_all(&self) {
        for pair in it: self.subscriptions.iter() {
            pair.1.close();
        }
    }

    /// Drops the subscription and frees its slot in the watched node's
    /// reverse list. Everything else — nodes, frames, every other edge and
    /// subscription — is left exactly as it was.
    pub fn unsubscribe(&mut self, id: u128) -> (r: Result<(), Error>)
        requires
            old(self).wf(),
        ensures
            final(self).wf(),
            final(self).nodes_map() == old(self).nodes_map(),
            final(self).states_map() == old(self).states_map(),
            match r {
                Ok(()) => {
                    let input = old(self).subs_map()[id].input;
                    &&& old(self).subs_map().contains_key(id)
                    &&& final(self).subs_map() =~= old(self).subs_map().remove(id)
                    &&& final(self).deps_map().dom() =~= old(self).deps_map().dom()
                    &&& forall|n: u128| n != input && #[trigger] old(
                        self,
                    ).deps_map().contains_key(n) ==> final(self).deps_map()[n] == old(
                        self,
                    ).deps_map()[n]
                    &&& final(self).deps_map()[input].forward@ == old(
                        self,
                    ).deps_map()[input].forward@
                    &&& final(self).deps_map()[input].reverse.slots() =~= old(
                        self,
                    ).deps_map()[input].reverse.slots().remove(old(self).subs_map()[id].slot)
                    &&& exists|i: int|
                        0 <= i < old(self).deps_map()[input].reverse@.len() && (#[trigger] old(
                            self,
                        ).deps_map()[input].reverse@[i]).0 == old(self).subs_map()[id].slot
                            && final(self).deps_map()[input].reverse@ == old(
                            self,
                        ).deps_map()[input].reverse@.remove(i)
                },
                Err(e) => {
                    &&& e == Error::UnknownSubscription
                    &&& !old(self).subs_map().contains_key(id)
                    &&& final(self).subs_map() == old(self).subs_map()
                    &&& final(self).deps_map() == old(self).deps_map()
                },
            },
    {
        let (input, slot) = match self.subscriptions.get(&id) {
            Some(sub) => (sub.input, sub.slot),
            None => {
                return Err(Error::UnknownSubscription);
            },
        };
        let entry = match self.dependencies.get(&input) {
            Some(entry) => entry,
            None => {
                proof {
                    assert(false);
                }
                return Err(Error::UnknownSubscription);
            },
        };
        let mut fresh = entry.duplicate();
        let ghost old_rev = fresh.reverse@;
        proof {
            crate::deps::lemma_revlist_domain(entry.reverse);
            crate::deps::lemma_revlist_lookup(entry.reverse, choose|j: int|
                0 <= j < entry.reverse@.len() && entry.reverse@[j].0 == slot);
        }
        fresh.reverse.remove(slot);
        self.dependencies.insert(input, fresh);
        self.subscriptions.remove(&id);
        proof {
            self.lemma_unsubscribe_wf(*old(self), id, input, slot);
            assert(self.nodes_map() == old(self).nodes_map());
            assert forall|s: u128| #[trigger] self.subs_map().contains_key(s) implies
                self.subs_map()[s].last_frame()
                    == self.states_map()[self.subs_map()[s].input]@ by {
                assert(self.subs_map()[s] == old(self).subs_map()[s]);
            }
        }
        Ok(())
    }

    /// Registers a live view of `input`: a fresh subscription identifier
    /// is drawn, a reverse-list entry is added under a fresh slot, and the
    /// node's current frame is delivered at once. A failed registration
    /// leaves the graph exactly as it was.
    pub fn subscribe(&mut self, input: u128, channel: Sender<GraphUpdate>) -> (r: Result<
        u128,
        Error,
    >)
        requires
            old(self).wf(),
        ensures
            final(self).wf(),
            final(self).nodes_map() == old(self).nodes_map(),
            final(self).states_map() == old(self).states_map(),
            match r {
                Ok(sid) => {
                    &&& old(self).nodes_map().contains_key(input)
                    &&& !old(self).subs_map().contains_key(sid)
                    &&& !old(self).nodes_map().contains_key(sid)
                    &&& final(self).subs_map().dom() =~= old(self).subs_map().dom().insert(sid)
                    &&& forall|s: u128| s != sid && #[trigger] old(self).subs_map().contains_key(s)
                        ==> final(self).subs_map()[s] == old(self).subs_map()[s]
                    &&& final(self).subs_map()[sid].id == sid
                    &&& final(self).subs_map()[sid].input == input
                    &&& final(self).subs_map()[sid].last_frame() == old(
                        self,
                    ).states_map()[input]@
                    &&& final(self).deps_map().dom() =~= old(self).deps_map().dom()
                    &&& forall|n: u128| n != input && #[trigger] old(
                        self,
                    ).deps_map().contains_key(n) ==> final(self).deps_map()[n] == old(
                        self,
                    ).deps_map()[n]
                    &&& final(self).deps_map()[input].forward@ == old(
                        self,
                    ).deps_map()[input].forward@
                    &&& final(self).deps_map()[input].reverse@ == old(
                        self,
                    ).deps_map()[input].reverse@.push(
                        (final(self).subs_map()[sid].slot, Dependent::Subscription { id: sid }),
                    )
                },
                Err(e) => {
                    &&& *final(self) == *old(self)
                    &&& (e == Error::UnknownNode <==> !old(self).nodes_map().contains_key(input))
                    &&& (e == Error::UnknownNode || e == Error::IdCollision || e
                        == Error::Subscribe(SubscriptionError::ChannelClosed))
                },
            },
    {
        if !self.dependencies.contains_key(&input) {
            return Err(Error::UnknownNode);
        }
        let sid = fresh_id();
        if self.subscriptions.contains_key(&sid) || self.nodes.contains_key(&sid) {
            return Err(Error::IdCollision);
        }
        let entry = match self.dependencies.get(&input) {
            Some(entry) => entry,
            None => {
                proof {
                    assert(false);
                }
                return Err(Error::UnknownNode);
            },
        };
        let mut fresh = entry.duplicate();
        let slot = fresh.reverse.insert(Dependent::Subscription { id: sid });
        match Subscription::new(sid, input, slot, &self.node_states, channel) {
            Ok(sub) => {
                self.dependencies.insert(input, fresh);
                self.subscriptions.insert(sid, sub);
                proof {
                    self.lemma_subscribe_wf(*old(self), sid, input, slot);
                    assert(self.nodes_map() == old(self).nodes_map());
                    assert forall|s: u128| #[trigger] self.subs_map().contains_key(s) implies
                        self.subs_map()[s].last_frame()
                            == self.states_map()[self.subs_map()[s].input]@ by {
                        if s != sid {
                            assert(self.subs_map()[s] == old(self).subs_map()[s]);
                        }
                    }
                }
                Ok(sid)
            },
            Err(SubscriptionError::ChannelClosed) => Err(
                Error::Subscribe(SubscriptionError::ChannelClosed),
            ),
            Err(SubscriptionError::NoInput) => {
                proof {
                    assert(false);
                }
                Err(Error::Subscribe(SubscriptionError::NoInput))
            },
        }
    }

    /// Adding one subscription entry under a fresh slot preserves every
    /// invariant.
    proof fn lemma_subscribe_wf(self, pre: SceneGraph, sid: u128, input: u128, slot: u128)
        requires
            pre.links_wf(),
            pre.nodes_map().contains_key(input),
            !pre.subs_map().contains_key(sid),
            !pre.nodes_map().contains_key(sid),
            !pre.deps_map()[input].reverse.has_slot(slot),
            self.nodes_map() == pre.nodes_map(),
            self.states_map() == pre.states_map(),
            self.subs_map() == pre.subs_map().insert(sid, self.subs_map()[sid]),
            self.subs_map().contains_key(sid),
            self.subs_map()[sid].id == sid,
            self.subs_map()[sid].input == input,
            self.subs_map()[sid].slot == slot,
            self.deps_map() == pre.deps_map().insert(input, self.deps_map()[input]),
            self.deps_map().contains_key(input),
            self.deps_map()[input].forward@ == pre.deps_map()[input].forward@,
            self.deps_map()[input].reverse.wf(),
            self.deps_map()[input].reverse@ == pre.deps_map()[input].reverse@.push(
                (slot, Dependent::Subscription { id: sid }),
            ),
            self.deps_map()[input].reverse.slots() == pre.deps_map()[input].reverse.slots().insert(
                slot,
                Dependent::Subscription { id: sid },
            ),
        ensures
            self.links_wf(),
    {
        let oldrev = pre.deps_map()[input].reverse@;
        assert(self.keys_consistent()) by {
            assert(self.deps_map().dom() =~= pre.deps_map().dom());
        }
        assert forall|n: u128| #[trigger] self.nodes_map().contains_key(n) implies self.deps_map()[n].reverse.wf()
            && self.deps_map()[n].forward@.len() == self.nodes_map()[n].arity() by {
            if n != input {
                assert(self.deps_map()[n] == pre.deps_map()[n]);
            }
        }
        assert forall|n: u128, i: int|
            self.nodes_map().contains_key(n) && 0 <= i < self.deps_map()[n].forward@.len() implies
            match #[trigger] self.deps_map()[n].forward@[i] {
            Some((m, k)) => {
                &&& self.nodes_map()[n].dep(i) == Some(m)
                &&& self.nodes_map().contains_key(m)
                &&& self.deps_map()[m].reverse.slots().contains_key(k)
                &&& self.deps_map()[m].reverse.slots()[k] == (Dependent::Node {
                    id: n,
                    index: i as u32,
                })
            },
            None => self.nodes_map()[n].dep(i) is None,
        } by {
            assert(self.deps_map()[n].forward@ == pre.deps_map()[n].forward@);
            assert(pre.deps_map()[n].forward@[i] == self.deps_map()[n].forward@[i]);
            match pre.deps_map()[n].forward@[i] {
                Some((m, k)) => {
                    if m == input {
                        crate::deps::lemma_revlist_domain(pre.deps_map()[input].reverse);
                        assert(k != slot);
                    }
                },
                None => {},
            }
        }
        assert forall|m: u128, j: int|
            self.nodes_map().contains_key(m) && 0 <= j < self.deps_map()[m].reverse@.len() implies
            match (#[trigger] self.deps_map()[m].reverse@[j]).1 {
            Dependent::Node { id: n, index: i } => {
                &&& self.nodes_map().contains_key(n)
                &&& i < self.deps_map()[n].forward@.len()
                &&& self.deps_map()[n].forward@[i as int] == Some(
                    (m, self.deps_map()[m].reverse@[j].0),
                )
            },
            Dependent::Subscription { id: s } => {
                &&& self.subs_map().contains_key(s)
                &&& self.subs_map()[s].input == m
                &&& self.subs_map()[s].slot == self.deps_map()[m].reverse@[j].0
            },
        } by {
            if m == input && j == oldrev.len() {
                assert(self.deps_map()[m].reverse@[j] == (slot, Dependent::Subscription {
                    id: sid,
                }));
            } else {
                let entry = if m == input {
                    assert(self.deps_map()[m].reverse@[j] == oldrev[j]);
                    oldrev[j]
                } else {
                    assert(self.deps_map()[m] == pre.deps_map()[m]);
                    pre.deps_map()[m].reverse@[j]
                };
                match entry.1 {
                    Dependent::Node { id: n, index: i } => {
                        assert(self.deps_map()[n].forward@ == pre.deps_map()[n].forward@);
                    },
                    Dependent::Subscription { id: s } => {
                        assert(pre.subs_map().contains_key(s));
                        assert(s != sid);
                        assert(self.subs_map()[s] == pre.subs_map()[s]);
                    },
                }
            }
        }
        assert forall|s: u128| #[trigger] self.subs_map().contains_key(s) implies {
            let sub = self.subs_map()[s];
            &&& sub.id == s
            &&& self.nodes_map().contains_key(sub.input)
            &&& sub.input != s
            &&& self.deps_map()[sub.input].reverse.slots().contains_key(sub.slot)
            &&& self.deps_map()[sub.input].reverse.slots()[sub.slot] == (Dependent::Subscription {
                id: s,
            })
        } by {
            if s != sid {
                let sub = self.subs_map()[s];
                assert(pre.subs_map().contains_key(s) && pre.subs_map()[s] == sub);
                if sub.input == input {
                    crate::deps::lemma_revlist_domain(pre.deps_map()[input].reverse);
                    assert(pre.deps_map()[input].reverse.slots().contains_key(sub.slot));
                    assert(sub.slot != slot);
                } else {
                    assert(self.deps_map()[sub.input] == pre.deps_map()[sub.input]);
                }
            }
        }
    }

    /// Creates the node under `id`, or replaces the node already there,
    /// keeping its dependents. Every named upstream must exist, the new
    /// edges must not close a cycle, and `id` must not be a subscription
    /// identifier; a refused insert leaves the graph exactly as it was,
    /// bit for bit. On success the affected part of the frame cache is
    /// recomputed and the affected subscriptions are notified.
    #[verifier::loop_isolation(false)]
    #[verifier::rlimit(60)]
    pub fn insert(&mut self, id: u128, node: Node) -> (r: Result<(), Error>)
        requires
            old(self).wf(),
            node.wf(),
        ensures
            final(self).wf(),
            match r {
                Ok(()) => {
                    &&& !old(self).subs_map().contains_key(id)
                    &&& final(self).nodes_map() =~= old(self).nodes_map().insert(id, node)
                    &&& final(self).states_map().dom() =~= old(self).nodes_map().dom().insert(id)
                    &&& forall|i: int| 0 <= i < node.arity() && node.dep(i) is Some ==> old(
                        self,
                    ).nodes_map().contains_key(node.dep(i)->Some_0)
                    &&& forall|s: u128| #[trigger] final(self).subs_map().contains_key(s) ==> old(
                        self,
                    ).subs_map().contains_key(s) && final(self).subs_map()[s].id == old(
                        self,
                    ).subs_map()[s].id && final(self).subs_map()[s].input == old(
                        self,
                    ).subs_map()[s].input
                    // a watcher of a node whose frame did not change is left
                    // entirely alone: nothing new reaches its channel
                    &&& forall|s: u128| #[trigger] old(self).subs_map().contains_key(s)
                        && final(self).states_map()[old(self).subs_map()[s].input]@ == old(
                        self,
                    ).states_map()[old(self).subs_map()[s].input]@
                        ==> final(self).subs_map().contains_key(s)
                        && final(self).subs_map()[s] == old(self).subs_map()[s]
                },
                Err(e) => {
                    &&& *final(self) == *old(self)
                    &&& (e == Error::IdCollision <==> old(self).subs_map().contains_key(id))
                    &&& (e == Error::IdCollision || e matches Error::MissingInput(_) || e
                        == Error::Cycle)
                    &&& (e matches Error::MissingInput(i) ==> 0 <= i < node.arity() && node.dep(
                        i as int,
                    ) is Some && !old(self).nodes_map().contains_key(node.dep(i as int)->Some_0)
                        && forall|j: int|
                        0 <= j < i ==> !(node.dep(j) is Some && !old(
                            self,
                        ).nodes_map().contains_key(node.dep(j)->Some_0)))
                },
            },
            !old(self).subs_map().contains_key(id) ==> ((exists|i: int|
                0 <= i < node.arity() && node.dep(i) is Some && !old(
                    self,
                ).nodes_map().contains_key(#[trigger] node.dep(i)->Some_0)) <==> (r matches Err(e)
                && e matches Error::MissingInput(_))),
            // cycle rejection is exact: a refusal means the new edges really
            // close a cycle, and an insert succeeds exactly when the
            // identifier is free of subscriptions, every named upstream
            // exists, and the extended edges stay acyclic
            r == Err::<(), Error>(Error::Cycle) ==> !acyclic(
                old(self).nodes_map().insert(id, node),
            ),
            r is Ok <==> (!old(self).subs_map().contains_key(id) && (forall|i: int|
                0 <= i < node.arity() && node.dep(i) is Some ==> old(
                    self,
                ).nodes_map().contains_key(#[trigger] node.dep(i)->Some_0)) && acyclic(
                old(self).nodes_map().insert(id, node),
            )),
    {
        if self.subscriptions.contains_key(&id) {
            return Err(Error::IdCollision);
        }
        let ghost nodes0 = self.nodes@;
        let ghost deps0 = self.dependencies@;
        let ghost states0 = self.node_states@;

        let mut deps_tx: Transaction<Dependencies> = Transaction::new();
        let mut nodes_tx: Transaction<Node> = Transaction::new();
        let mut states_tx: Transaction<Frame> = Transaction::new();

        // detach the node's old forward edges from their upstreams; the
        // dependents it already has will carry over untouched
        let old_forward: Vec<Option<(u128, u128)>> = match self.dependencies.get(&id) {
            Some(entry) => entry.duplicate().forward,
            None => Vec::new(),
        };
        proof {
            if deps0.contains_key(id) {
                assert(old_forward@ == deps0[id].forward@);
            } else {
                assert(old_forward@.len() == 0);
            }
            assert(deps0.contains_key(id) ==> old_forward@.len() == nodes0[id].arity());
        }
        for fi in 0..old_forward.len()
            invariant
                forall|m: u128| #[trigger] deps_tx.staged(deps0).contains_key(m)
                    <==> deps0.contains_key(m),
                forall|m: u128| #[trigger] deps0.contains_key(m) ==> deps_tx.staged(
                    deps0,
                )[m].forward@ == deps0[m].forward@,
                forall|m: u128| #[trigger] deps0.contains_key(m) ==> deps_tx.staged(
                    deps0,
                )[m].reverse.wf(),
                forall|m: u128, k: u128|
                    #![trigger deps_tx.staged(deps0)[m].reverse.slots().contains_key(k)]
                    deps0.contains_key(m) && deps_tx.staged(deps0)[m].reverse.slots().contains_key(
                        k,
                    ) ==> deps0[m].reverse.slots().contains_key(k) && deps_tx.staged(
                        deps0,
                    )[m].reverse.slots()[k] == deps0[m].reverse.slots()[k],
                forall|m: u128, k: u128|
                    #![trigger deps0[m].reverse.slots().contains_key(k)]
                    deps0.contains_key(m) && deps0[m].reverse.slots().contains_key(k) && !(
                    exists|j: int|
                        0 <= j < fi && old_forward@[j] == Some((m, k))) ==> deps_tx.staged(
                        deps0,
                    )[m].reverse.slots().contains_key(k),
                forall|j: int, m: u128, k: u128|
                    #![trigger old_forward@[j], deps_tx.staged(deps0)[m].reverse.slots().contains_key(k)]
                    0 <= j < fi && old_forward@[j] == Some((m, k)) ==> !deps_tx.staged(
                        deps0,
                    )[m].reverse.slots().contains_key(k),
                deps_tx.wf(),
        {
            let ghost pre_staged = deps_tx.staged(deps0);
            match old_forward[fi] {
                Some((u, k)) => {
                    proof {
                        assert(deps0[id].forward@[fi as int] == Some((u, k)));
                        assert(old(self).deps_map()[id].forward@[fi as int] == Some((u, k)));
                        assert(nodes0.contains_key(u));
                    }
                    let upstream = match deps_tx.get(&self.dependencies, u) {
                        Some(entry) => entry,
                        None => {
                            proof {
                                assert(false);
                            }
                            return Err(Error::Cycle);
                        },
                    };
                    let mut fresh = upstream.duplicate();
                    fresh.reverse.remove(k);
                    deps_tx.insert(u, fresh);
                    proof {
                        assert forall|m: u128, kk: u128|
                            deps0.contains_key(m) && deps0[m].reverse.slots().contains_key(kk)
                                && !(exists|j: int|
                                0 <= j < fi + 1 && old_forward@[j] == Some(
                                    (m, kk),
                                )) implies #[trigger] deps_tx.staged(
                            deps0,
                        )[m].reverse.slots().contains_key(kk) by {
                            assert(!(exists|j: int| 0 <= j < fi && old_forward@[j] == Some(
                                (m, kk),
                            )));
                            assert(pre_staged[m].reverse.slots().contains_key(kk));
                            if m == u {
                                assert(!(old_forward@[fi as int] == Some((m, kk))));
                                assert(kk != k);
                            }
                        }
                        assert forall|j: int, m: u128, kk: u128|
                            0 <= j < fi + 1 && #[trigger] old_forward@[j] == Some(
                                (m, kk),
                            ) implies !(#[trigger] deps_tx.staged(
                            deps0,
                        )[m].reverse.slots().contains_key(kk)) by {
                            if j < fi {
                                assert(!pre_staged[m].reverse.slots().contains_key(kk));
                            } else {
                                assert(m == u && kk == k);
                            }
                        }
                    }
                },
                None => {},
            }
        }
        let ghost sda = deps_tx.staged(deps0);
        proof {
            assert forall|j: int, m: u128, k: u128|
                0 <= j < old_forward@.len() && #[trigger] old_forward@[j] == Some(
                    (m, k),
                ) implies !(#[trigger] sda[m].reverse.slots().contains_key(k)) by {}
        }

        // bind the new inputs
        let dep_ids = node.dependencies();
        let mut forward: Vec<Option<(u128, u128)>> = Vec::new();
        for bi in 0..dep_ids.len()
            invariant
                forall|m: u128| #[trigger] deps_tx.staged(deps0).contains_key(m)
                    <==> deps0.contains_key(m),
                forall|m: u128| #[trigger] deps0.contains_key(m) ==> deps_tx.staged(
                    deps0,
                )[m].forward@ == deps0[m].forward@,
                forall|m: u128| #[trigger] deps0.contains_key(m) ==> deps_tx.staged(
                    deps0,
                )[m].reverse.wf(),
                forall|m: u128, k: u128|
                    #![trigger deps_tx.staged(deps0)[m].reverse.slots().contains_key(k)]
                    deps0.contains_key(m) && deps_tx.staged(deps0)[m].reverse.slots().contains_key(
                        k,
                    ) ==> (sda[m].reverse.slots().contains_key(k) && deps_tx.staged(
                        deps0,
                    )[m].reverse.slots()[k] == sda[m].reverse.slots()[k]) || (exists|jj: int|
                        0 <= jj < bi && forward@[jj] == Some((m, k)) && deps_tx.staged(
                            deps0,
                        )[m].reverse.slots()[k] == (Dependent::Node { id, index: jj as u32 })),
                forall|m: u128, k: u128|
                    #![trigger sda[m].reverse.slots().contains_key(k)]
                    deps0.contains_key(m) && sda[m].reverse.slots().contains_key(k)
                        ==> deps_tx.staged(deps0)[m].reverse.slots().contains_key(k)
                        && deps_tx.staged(deps0)[m].reverse.slots()[k]
                        == sda[m].reverse.slots()[k],
                forward@.len() == bi,
                forall|j: int|
                    #![trigger forward@[j]]
                    0 <= j < bi ==> match forward@[j] {
                        Some((m, k)) => node.dep(j) == Some(m) && deps0.contains_key(m)
                            && deps_tx.staged(deps0)[m].reverse.slots().contains_key(k)
                            && deps_tx.staged(deps0)[m].reverse.slots()[k] == (Dependent::Node {
                            id,
                            index: j as u32,
                        }),
                        None => node.dep(j) is None,
                    },
                forall|j: int| 0 <= j < bi ==> !(node.dep(j) is Some && !nodes0.contains_key(
                    #[trigger] node.dep(j)->Some_0,
                )),
                deps_tx.wf(),
        {
            let ghost pre_staged = deps_tx.staged(deps0);
            let ghost pre_forward = forward@;
            match dep_ids[bi] {
                Some(dep_id) => {
                    match deps_tx.get(&self.dependencies, dep_id) {
                        Some(entry) => {
                            let mut fresh = entry.duplicate();
                            let key = fresh.reverse.insert(
                                Dependent::Node { id, index: bi as u32 },
                            );
                            deps_tx.insert(dep_id, fresh);
                            forward.push(Some((dep_id, key)));
                            proof {
                                assert(nodes0.contains_key(dep_id));
                                crate::deps::lemma_revlist_domain(entry.reverse);
                                let sd_now = deps_tx.staged(deps0);
                                assert(sd_now[dep_id].reverse.slots()
                                    == pre_staged[dep_id].reverse.slots().insert(
                                    key,
                                    Dependent::Node { id, index: bi as u32 },
                                ));
                                assert(!pre_staged[dep_id].reverse.slots().contains_key(key));
                                assert(forward@ == pre_forward.push(Some((dep_id, key))));
                                assert forall|m: u128, k: u128|
                                    deps0.contains_key(m) && sda[m].reverse.slots().contains_key(
                                        k,
                                    ) implies #[trigger] sd_now[m].reverse.slots().contains_key(k)
                                    && sd_now[m].reverse.slots()[k]
                                    == sda[m].reverse.slots()[k] by {
                                    assert(pre_staged[m].reverse.slots().contains_key(k)
                                        && pre_staged[m].reverse.slots()[k]
                                        == sda[m].reverse.slots()[k]);
                                    if m == dep_id {
                                        assert(k != key);
                                    }
                                }
                                assert forall|m: u128, k: u128|
                                    deps0.contains_key(m)
                                        && #[trigger] sd_now[m].reverse.slots().contains_key(
                                        k,
                                    ) implies (sda[m].reverse.slots().contains_key(k)
                                    && sd_now[m].reverse.slots()[k] == sda[m].reverse.slots()[k])
                                    || (exists|jj: int|
                                    0 <= jj < bi + 1 && forward@[jj] == Some((m, k))
                                        && sd_now[m].reverse.slots()[k] == (Dependent::Node {
                                        id,
                                        index: jj as u32,
                                    })) by {
                                    if m == dep_id && k == key {
                                        assert(forward@[bi as int] == Some((m, k)));
                                        assert(sd_now[m].reverse.slots()[k] == (Dependent::Node {
                                            id,
                                            index: bi as u32,
                                        }));
                                    } else {
                                        assert(pre_staged[m].reverse.slots().contains_key(k)
                                            && pre_staged[m].reverse.slots()[k]
                                            == sd_now[m].reverse.slots()[k]);
                                        if !(sda[m].reverse.slots().contains_key(k)
                                            && pre_staged[m].reverse.slots()[k]
                                            == sda[m].reverse.slots()[k]) {
                                            let jj = choose|jj: int|
                                                0 <= jj < bi && pre_forward[jj] == Some((m, k))
                                                    && pre_staged[m].reverse.slots()[k] == (
                                                Dependent::Node { id, index: jj as u32 });
                                            assert(forward@[jj] == Some((m, k)));
                                        }
                                    }
                                }
                                assert forall|j: int| 0 <= j < bi + 1 implies match (
                                #[trigger] forward@[j]) {
                                    Some((m, k)) => node.dep(j) == Some(m) && deps0.contains_key(
                                        m,
                                    ) && sd_now[m].reverse.slots().contains_key(k)
                                        && sd_now[m].reverse.slots()[k] == (Dependent::Node {
                                        id,
                                        index: j as u32,
                                    }),
                                    None => node.dep(j) is None,
                                } by {
                                    if j < bi {
                                        match pre_forward[j] {
                                            Some((m, k)) => {
                                                assert(forward@[j] == pre_forward[j]);
                                                assert(pre_staged[m].reverse.slots().contains_key(
                                                    k,
                                                ));
                                                if m == dep_id {
                                                    assert(k != key);
                                                }
                                            },
                                            None => {},
                                        }
                                    } else {
                                        assert(forward@[j] == Some((dep_id, key)));
                                    }
                                }
                            }
                        },
                        None => {
                            proof {
                                assert(!nodes0.contains_key(node.dep(bi as int)->Some_0));
                            }
                            return Err(Error::MissingInput(bi as u32));
                        },
                    }
                },
                None => {
                    forward.push(None);
                    proof {
                        assert(forward@ == pre_forward.push(None));
                        assert forall|j: int| 0 <= j < bi + 1 implies match (
                        #[trigger] forward@[j]) {
                            Some((m, k)) => node.dep(j) == Some(m) && deps0.contains_key(m)
                                && deps_tx.staged(deps0)[m].reverse.slots().contains_key(k)
                                && deps_tx.staged(deps0)[m].reverse.slots()[k] == (
                            Dependent::Node { id, index: j as u32 }),
                            None => node.dep(j) is None,
                        } by {
                            if j < bi {
                                assert(forward@[j] == pre_forward[j]);
                            } else {
                                assert(forward@[j] is None);
                                assert(node.dep(j) is None);
                            }
                        }
                        assert forall|m: u128, k: u128|
                            deps0.contains_key(m) && #[trigger] deps_tx.staged(
                            deps0,
                        )[m].reverse.slots().contains_key(k) implies (
                        sda[m].reverse.slots().contains_key(k) && deps_tx.staged(
                            deps0,
                        )[m].reverse.slots()[k] == sda[m].reverse.slots()[k]) || (exists|jj: int|
                            0 <= jj < bi + 1 && forward@[jj] == Some((m, k)) && deps_tx.staged(
                                deps0,
                            )[m].reverse.slots()[k] == (Dependent::Node {
                                id,
                                index: jj as u32,
                            })) by {
                            if !(sda[m].reverse.slots().contains_key(k) && deps_tx.staged(
                                deps0,
                            )[m].reverse.slots()[k] == sda[m].reverse.slots()[k]) {
                                let jj = choose|jj: int|
                                    0 <= jj < bi && pre_forward[jj] == Some((m, k))
                                        && deps_tx.staged(deps0)[m].reverse.slots()[k] == (
                                    Dependent::Node { id, index: jj as u32 });
                                assert(forward@[jj] == Some((m, k)));
                            }
                        }
                    }
                },
            }
        }

        // the dependents the node already has carry over, including any the
        // binding loop just attached
        let reverse: RevList = match deps_tx.get(&self.dependencies, id) {
            Some(entry) => entry.duplicate().reverse,
            None => RevList::new(),
        };
        let ghost sdb = deps_tx.staged(deps0);
        nodes_tx.insert(id, node);
        deps_tx.insert(id, Dependencies { forward, reverse });

        let ghost sn = nodes_tx.staged(nodes0);
        let ghost sd = deps_tx.staged(deps0);
        proof {
            assert(sn =~= nodes0.insert(id, node));
            assert(sd[id].forward@ == forward@);
            if deps0.contains_key(id) {
                assert(sd[id].reverse@ == sdb[id].reverse@);
                assert(sd[id].reverse.slots() == sdb[id].reverse.slots());
            } else {
                assert(sd[id].reverse@.len() == 0);
                crate::assoc::lemma_map_domain(sd[id].reverse@);
            }
            assert(tables_wf(sn, sd)) by {
                assert(sd.dom() =~= sn.dom());
                assert forall|n: u128| #[trigger] sn.contains_key(n) implies sn[n].wf()
                    && sd[n].reverse.wf() && sd[n].forward@.len() == sn[n].arity() by {
                    if n != id {
                        assert(deps0.contains_key(n));
                        assert(sd[n] == sdb[n]);
                        assert(sd[n].forward@ == deps0[n].forward@);
                    }
                }
            }
            assert(forward_edges_ok(sn, sd)) by {
                assert forall|n: u128, i: int|
                    sn.contains_key(n) && 0 <= i < sd[n].forward@.len() implies match (
                #[trigger] sd[n].forward@[i]) {
                    Some((m, k)) => {
                        &&& sn[n].dep(i) == Some(m)
                        &&& sn.contains_key(m)
                        &&& sd[m].reverse.slots().contains_key(k)
                        &&& sd[m].reverse.slots()[k] == (Dependent::Node {
                            id: n,
                            index: i as u32,
                        })
                    },
                    None => sn[n].dep(i) is None,
                } by {
                    if n == id {
                        match forward@[i] {
                            Some((m, k)) => {
                                assert(sdb[m].reverse.slots().contains_key(k)
                                    && sdb[m].reverse.slots()[k] == (Dependent::Node {
                                    id,
                                    index: i as u32,
                                }));
                                if m == id {
                                } else {
                                    assert(sd[m] == sdb[m]);
                                }
                            },
                            None => {},
                        }
                    } else {
                        assert(deps0.contains_key(n));
                        assert(sd[n].forward@ == deps0[n].forward@);
                        assert(old(self).deps_map()[n].forward@[i] == deps0[n].forward@[i]);
                        match deps0[n].forward@[i] {
                            Some((m, k)) => {
                                assert(deps0[m].reverse.slots().contains_key(k)
                                    && deps0[m].reverse.slots()[k] == (Dependent::Node {
                                    id: n,
                                    index: i as u32,
                                }));
                                // this handle was never detached: detached
                                // handles all belonged to the replaced node
                                assert(!(exists|j: int|
                                    0 <= j < old_forward@.len() && old_forward@[j] == Some(
                                        (m, k),
                                    ))) by {
                                    if exists|j: int|
                                        0 <= j < old_forward@.len() && old_forward@[j] == Some(
                                            (m, k),
                                        ) {
                                        let j = choose|j: int|
                                            0 <= j < old_forward@.len() && old_forward@[j] == Some(
                                                (m, k),
                                            );
                                        assert(deps0.contains_key(id));
                                        assert(old(self).deps_map()[id].forward@[j] == Some(
                                            (m, k),
                                        ));
                                        assert(deps0[m].reverse.slots()[k] == (Dependent::Node {
                                            id,
                                            index: j as u32,
                                        }));
                                        assert(false);
                                    }
                                }
                                assert(sda[m].reverse.slots().contains_key(k));
                                assert(sda[m].reverse.slots()[k] == deps0[m].reverse.slots()[k]);
                                assert(sdb[m].reverse.slots().contains_key(k)
                                    && sdb[m].reverse.slots()[k] == sda[m].reverse.slots()[k]);
                                if m == id {
                                } else {
                                    assert(sd[m] == sdb[m]);
                                }
                            },
                            None => {},
                        }
                    }
                }
            }
            assert(reverse_nodes_ok(sn, sd)) by {
                assert forall|m: u128, j: int|
                    sn.contains_key(m) && 0 <= j < sd[m].reverse@.len() implies ((
                #[trigger] sd[m].reverse@[j]).1 matches Dependent::Node { id: n, .. }
                    ==> sn.contains_key(n)) by {
                    let k = sd[m].reverse@[j].0;
                    let v = sd[m].reverse@[j].1;
                    crate::deps::lemma_revlist_lookup(sd[m].reverse, j);
                    let ghost mm: u128 = if m == id && deps0.contains_key(id) { id } else { m };
                    if deps0.contains_key(m) {
                        assert(sd[m].reverse.slots() == sdb[m].reverse.slots() || sd[m]
                            == sdb[m]);
                        assert(sdb[m].reverse.slots().contains_key(k) && sdb[m].reverse.slots()[k]
                            == v);
                        if sda[m].reverse.slots().contains_key(k) && sdb[m].reverse.slots()[k]
                            == sda[m].reverse.slots()[k] {
                            assert(deps0[m].reverse.slots().contains_key(k)
                                && deps0[m].reverse.slots()[k] == v);
                            crate::deps::lemma_revlist_domain(old(self).deps_map()[m].reverse);
                            let j0 = choose|j0: int|
                                0 <= j0 < deps0[m].reverse@.len() && (
                                #[trigger] deps0[m].reverse@[j0]).0 == k;
                            crate::deps::lemma_revlist_lookup(deps0[m].reverse, j0);
                            assert(old(self).deps_map()[m].reverse@[j0] == (k, v));
                            match v {
                                Dependent::Node { id: n, .. } => {
                                    assert(nodes0.contains_key(n));
                                },
                                Dependent::Subscription { .. } => {},
                            }
                        } else {
                            let jj = choose|jj: int|
                                0 <= jj < forward@.len() && forward@[jj] == Some((m, k))
                                    && sdb[m].reverse.slots()[k] == (Dependent::Node {
                                    id,
                                    index: jj as u32,
                                });
                            assert(v == (Dependent::Node { id, index: jj as u32 }));
                        }
                    } else {
                        assert(m == id);
                        assert(sd[id].reverse@.len() == 0);
                    }
                }
            }
        }

        let mut origins: Vec<u128> = Vec::new();
        origins.push(id);
        proof {
            assert(origins@[0] == id);
            assert(origins@.contains(id));
            assert forall|n: u128| #[trigger] sn.contains_key(n) && !origins@.contains(n) implies
                states_tx.staged(states0).contains_key(n) by {
                assert(n != id);
                assert(nodes0.contains_key(n));
                assert(states0.contains_key(n));
            }
            assert forall|n: u128| #[trigger] states_tx.staged(states0).contains_key(n)
                && !origins@.contains(n) implies states_tx.staged(states0)[n]@ == spec_eval(
                sn[n],
                frames_view(states_tx.staged(states0)),
            ) by {
                assert(states_tx.staged(states0) =~= states0);
                assert(sn[n] == nodes0[n]);
                assert(old(self).states_map()[n]@ == spec_eval(
                    old(self).nodes_map()[n],
                    frames_view(old(self).states_map()),
                ));
            }
            assert(states_tx.staged(states0) =~= states0);
            assert(acyclic(nodes0));
            assert forall|n: u128| sn.contains_key(n) && !origins@.contains(n) implies
                nodes0.contains_key(n) && sn[n] == nodes0[n] by {
                assert(origins@[0] == id);
                assert(n != id);
            }
        }
        let updates = match update(
            &origins,
            &self.nodes,
            &nodes_tx,
            &self.node_states,
            &mut states_tx,
            &self.dependencies,
            &deps_tx,
        ) {
            Ok(updates) => updates,
            Err(_) => {
                proof {
                    assert(sn == nodes0.insert(id, node));
                    assert(!acyclic(old(self).nodes_map().insert(id, node)));
                }
                return Err(Error::Cycle);
            },
        };

        let ghost s1 = states_tx.staged(states0);
        nodes_tx.commit(&mut self.nodes);
        states_tx.commit(&mut self.node_states);
        deps_tx.commit(&mut self.dependencies);
        proof {
            assert(self.nodes@ == sn);
            assert(self.node_states@ == s1);
            assert(self.dependencies@ == sd);
            self.lemma_insert_wf(*old(self), id, node, sn, sd, s1, sda, sdb, old_forward@,
                forward@);
            assert(acyclic(self.nodes_map()));
            assert(acyclic(old(self).nodes_map().insert(id, node)));
            // every watcher of a rewritten frame is in the walk's list, so
            // delivery restores every remembered frame
            assert forall|s: u128| #[trigger] self.subs_map().contains_key(s) implies
                updates@.contains(s) || self.subs_map()[s].last_frame()
                    == self.states_map()[self.subs_map()[s].input]@ by {
                let sub = self.subs_map()[s];
                let m = sub.input;
                assert(old(self).subs_map().contains_key(s) && old(self).subs_map()[s] == sub);
                assert(sub.last_frame() == old(self).states_map()[m]@);
                assert(self.deps_map()[m].reverse.slots().contains_key(sub.slot)
                    && self.deps_map()[m].reverse.slots()[sub.slot] == (
                Dependent::Subscription { id: s }));
                crate::deps::lemma_revlist_domain(self.deps_map()[m].reverse);
                let jr = choose|jr: int|
                    0 <= jr < self.deps_map()[m].reverse@.len() && (
                    #[trigger] self.deps_map()[m].reverse@[jr]).0 == sub.slot;
                crate::deps::lemma_revlist_lookup(self.deps_map()[m].reverse, jr);
                assert(sd[m].reverse@[jr].1 == (Dependent::Subscription { id: s }));
                if states0.contains_key(m) && s1[m] == states0[m] {
                    assert(self.states_map()[m]@ == old(self).states_map()[m]@);
                } else {
                    assert(updates@.contains(s));
                }
            }
        }
        self.deliver(updates);
        Ok(())
    }

    /// After the staged tables are proven consistent and the frame cache is
    /// recomputed, the committed graph satisfies every invariant.
    #[verifier::rlimit(100)]
    #[verifier::spinoff_prover]
    proof fn lemma_insert_wf(
        self,
        pre: SceneGraph,
        id: u128,
        node: Node,
        sn: Map<u128, Node>,
        sd: Map<u128, Dependencies>,
        s1: Map<u128, Frame>,
        sda: Map<u128, Dependencies>,
        sdb: Map<u128, Dependencies>,
        old_forward: Seq<Option<(u128, u128)>>,
        forward: Seq<Option<(u128, u128)>>,
    )
        requires
            pre.links_wf(),
            !pre.subs_map().contains_key(id),
            self.nodes_map() == sn,
            self.states_map() == s1,
            self.deps_map() == sd,
            self.subs_map() == pre.subs_map(),
            sn == pre.nodes_map().insert(id, node),
            tables_wf(sn, sd),
            forward_edges_ok(sn, sd),
            s1.dom() =~= sn.dom(),
            forall|n: u128| #[trigger] sn.contains_key(n) ==> s1[n]@ == spec_eval(
                sn[n],
                frames_view(s1),
            ),
            // how the staged edges relate to the old ones
            pre.deps_map().contains_key(id) ==> old_forward == pre.deps_map()[id].forward@,
            !pre.deps_map().contains_key(id) ==> old_forward.len() == 0,
            forall|m: u128| #[trigger] sd.contains_key(m) <==> pre.deps_map().contains_key(m) || m
                == id,
            forall|m: u128| m != id && #[trigger] pre.deps_map().contains_key(m) ==> sd[m]
                == sdb[m],
            forall|m: u128| #[trigger] pre.deps_map().contains_key(m) ==> sdb[m].forward@
                == pre.deps_map()[m].forward@,
            forall|m: u128, k: u128|
                #![trigger sda[m].reverse.slots().contains_key(k)]
                pre.deps_map().contains_key(m) && sda[m].reverse.slots().contains_key(k)
                    ==> sdb[m].reverse.slots().contains_key(k) && sdb[m].reverse.slots()[k]
                    == sda[m].reverse.slots()[k],
            forall|j: int, m: u128, k: u128|
                #![trigger old_forward[j], sda[m].reverse.slots().contains_key(k)]
                0 <= j < old_forward.len() && old_forward[j] == Some((m, k))
                    ==> !sda[m].reverse.slots().contains_key(k),
            sd[id].forward@ == forward,
            pre.deps_map().contains_key(id) ==> sd[id].reverse.slots()
                == sdb[id].reverse.slots(),
            !pre.deps_map().contains_key(id) ==> sd[id].reverse@.len() == 0,
            forall|m: u128, k: u128|
                #![trigger sdb[m].reverse.slots().contains_key(k)]
                pre.deps_map().contains_key(m) && sdb[m].reverse.slots().contains_key(k) ==> (
                sda[m].reverse.slots().contains_key(k) && sdb[m].reverse.slots()[k]
                    == sda[m].reverse.slots()[k]) || (exists|jj: int|
                    0 <= jj < forward.len() && forward[jj] == Some((m, k))
                        && sdb[m].reverse.slots()[k] == (Dependent::Node {
                        id,
                        index: jj as u32,
                    })),
            forall|m: u128, k: u128|
                #![trigger sda[m].reverse.slots().contains_key(k)]
                pre.deps_map().contains_key(m) && sda[m].reverse.slots().contains_key(k)
                    ==> pre.deps_map()[m].reverse.slots().contains_key(k)
                    && sda[m].reverse.slots()[k] == pre.deps_map()[m].reverse.slots()[k],
            forall|m: u128, k: u128|
                #![trigger pre.deps_map()[m].reverse.slots().contains_key(k)]
                pre.deps_map().contains_key(m) && pre.deps_map()[m].reverse.slots().contains_key(
                    k,
                ) && !(exists|j: int|
                    0 <= j < old_forward.len() && old_forward[j] == Some((m, k)))
                    ==> sda[m].reverse.slots().contains_key(k),
        ensures
            self.links_wf(),
    {
        assert(self.keys_consistent()) by {
            assert(self.deps_map().dom() =~= self.nodes_map().dom());
        }
        assert forall|m: u128, j: int|
            self.nodes_map().contains_key(m) && 0 <= j < self.deps_map()[m].reverse@.len() implies
            match (#[trigger] self.deps_map()[m].reverse@[j]).1 {
            Dependent::Node { id: n, index: i } => {
                &&& self.nodes_map().contains_key(n)
                &&& i < self.deps_map()[n].forward@.len()
                &&& self.deps_map()[n].forward@[i as int] == Some(
                    (m, self.deps_map()[m].reverse@[j].0),
                )
            },
            Dependent::Subscription { id: s } => {
                &&& self.subs_map().contains_key(s)
                &&& self.subs_map()[s].input == m
                &&& self.subs_map()[s].slot == self.deps_map()[m].reverse@[j].0
            },
        } by {
            let k = sd[m].reverse@[j].0;
            let v = sd[m].reverse@[j].1;
            crate::deps::lemma_revlist_lookup(sd[m].reverse, j);
            if pre.deps_map().contains_key(m) {
                assert(sdb[m].reverse.slots().contains_key(k) && sdb[m].reverse.slots()[k] == v);
                if sda[m].reverse.slots().contains_key(k) && sdb[m].reverse.slots()[k]
                    == sda[m].reverse.slots()[k] {
                    // an edge that predates this insert
                    assert(pre.deps_map()[m].reverse.slots().contains_key(k)
                        && pre.deps_map()[m].reverse.slots()[k] == v);
                    crate::deps::lemma_revlist_domain(pre.deps_map()[m].reverse);
                    let j0 = choose|j0: int|
                        0 <= j0 < pre.deps_map()[m].reverse@.len() && (
                        #[trigger] pre.deps_map()[m].reverse@[j0]).0 == k;
                    crate::deps::lemma_revlist_lookup(pre.deps_map()[m].reverse, j0);
                    assert(pre.deps_map()[m].reverse@[j0] == (k, v));
                    match v {
                        Dependent::Node { id: n, index: i } => {
                            assert(pre.nodes_map().contains_key(n));
                            assert(pre.deps_map()[n].forward@[i as int] == Some((m, k)));
                            assert(n != id) by {
                                if n == id {
                                    assert(old_forward[i as int] == Some((m, k)));
                                    // detached handles are gone from the
                                    // staged tables
                                    assert(!sda[m].reverse.slots().contains_key(k));
                                    assert(false);
                                }
                            }
                            assert(sd[n] == sdb[n]);
                            assert(sdb[n].forward@ == pre.deps_map()[n].forward@);
                            assert(self.deps_map()[n].forward@[i as int] == Some((m, k)));
                        },
                        Dependent::Subscription { id: s } => {
                            assert(pre.subs_map().contains_key(s));
                            assert(pre.subs_map()[s].input == m);
                            assert(pre.subs_map()[s].slot == k);
                        },
                    }
                } else {
                    let jj = choose|jj: int|
                        0 <= jj < forward.len() && forward[jj] == Some((m, k))
                            && sdb[m].reverse.slots()[k] == (Dependent::Node {
                            id,
                            index: jj as u32,
                        });
                    assert(v == (Dependent::Node { id, index: jj as u32 }));
                    assert(self.deps_map()[id].forward@[jj] == Some((m, k)));
                }
            } else {
                assert(m == id);
                assert(sd[id].reverse@.len() == 0);
            }
        }
        assert forall|s: u128| #[trigger] self.subs_map().contains_key(s) implies {
            let sub = self.subs_map()[s];
            &&& sub.id == s
            &&& self.nodes_map().contains_key(sub.input)
            &&& sub.input != s
            &&& self.deps_map()[sub.input].reverse.slots().contains_key(sub.slot)
            &&& self.deps_map()[sub.input].reverse.slots()[sub.slot] == (Dependent::Subscription {
                id: s,
            })
        } by {
            let sub = self.subs_map()[s];
            assert(pre.subs_map().contains_key(s) && pre.subs_map()[s] == sub);
            assert(pre.nodes_map().contains_key(sub.input));
            let m = sub.input;
            let k = sub.slot;
            assert(pre.deps_map()[m].reverse.slots().contains_key(k)
                && pre.deps_map()[m].reverse.slots()[k] == (Dependent::Subscription { id: s }));
            assert(!(exists|j: int| 0 <= j < old_forward.len() && old_forward[j] == Some(
                (m, k),
            ))) by {
                if exists|j: int| 0 <= j < old_forward.len() && old_forward[j] == Some((m, k)) {
                    let j = choose|j: int|
                        0 <= j < old_forward.len() && old_forward[j] == Some((m, k));
                    assert(pre.deps_map().contains_key(id));
                    assert(pre.deps_map()[id].forward@[j] == Some((m, k)));
                    assert(pre.deps_map()[m].reverse.slots()[k] == (Dependent::Node {
                        id,
                        index: j as u32,
                    }));
                    assert(false);
                }
            }
            assert(sda[m].reverse.slots().contains_key(k));
            assert(sda[m].reverse.slots()[k] == (Dependent::Subscription { id: s }));
            assert(sdb[m].reverse.slots().contains_key(k) && sdb[m].reverse.slots()[k] == (
            Dependent::Subscription { id: s }));
            if m == id {
                assert(self.deps_map()[id].reverse.slots() == sdb[id].reverse.slots());
            } else {
                assert(sd[m] == sdb[m]);
            }
            assert(sub.input != s) by {
                assert(pre.nodes_map().contains_key(sub.input));
                assert(!pre.nodes_map().contains_key(s));
            }
        }
        assert(self.ids_disjoint()) by {
            assert forall|s: u128| self.subs_map().contains_key(s) implies
                !self.nodes_map().contains_key(s) by {
                assert(!pre.nodes_map().contains_key(s));
                assert(s != id);
            }
        }
    }

    /// Replacing a subscription's record with one that keeps its identity,
    /// watched node and slot preserves every invariant.
    proof fn lemma_replace_sub_wf(self, pre: SceneGraph, sid: u128)
        requires
            pre.links_wf(),
            pre.subs_map().contains_key(sid),
            self.nodes_map() == pre.nodes_map(),
            self.states_map() == pre.states_map(),
            self.deps_map() == pre.deps_map(),
            self.subs_map() == pre.subs_map().insert(sid, self.subs_map()[sid]),
            self.subs_map().contains_key(sid),
            self.subs_map()[sid].id == sid,
            self.subs_map()[sid].input == pre.subs_map()[sid].input,
            self.subs_map()[sid].slot == pre.subs_map()[sid].slot,
        ensures
            self.links_wf(),
    {
        assert(self.subs_map().dom() =~= pre.subs_map().dom());
        assert forall|m: u128, j: int|
            self.nodes_map().contains_key(m) && 0 <= j < self.deps_map()[m].reverse@.len() implies
            match (#[trigger] self.deps_map()[m].reverse@[j]).1 {
            Dependent::Node { id: n, index: i } => {
                &&& self.nodes_map().contains_key(n)
                &&& i < self.deps_map()[n].forward@.len()
                &&& self.deps_map()[n].forward@[i as int] == Some(
                    (m, self.deps_map()[m].reverse@[j].0),
                )
            },
            Dependent::Subscription { id: s } => {
                &&& self.subs_map().contains_key(s)
                &&& self.subs_map()[s].input == m
                &&& self.subs_map()[s].slot == self.deps_map()[m].reverse@[j].0
            },
        } by {
            assert(pre.deps_map()[m].reverse@[j] == self.deps_map()[m].reverse@[j]);
            match pre.deps_map()[m].reverse@[j].1 {
                Dependent::Node { .. } => {},
                Dependent::Subscription { id: s } => {
                    if s == sid {
                        assert(self.subs_map()[s].input == pre.subs_map()[s].input);
                    } else {
                        assert(self.subs_map()[s] == pre.subs_map()[s]);
                    }
                },
            }
        }
        assert forall|s: u128| #[trigger] self.subs_map().contains_key(s) implies {
            let sub = self.subs_map()[s];
            &&& sub.id == s
            &&& self.nodes_map().contains_key(sub.input)
            &&& sub.input != s
            &&& self.deps_map()[sub.input].reverse.slots().contains_key(sub.slot)
            &&& self.deps_map()[sub.input].reverse.slots()[sub.slot] == (Dependent::Subscription {
                id: s,
            })
        } by {
            if s != sid {
                assert(self.subs_map()[s] == pre.subs_map()[s]);
            } else {
                assert(pre.subs_map()[sid].id == sid);
            }
        }
    }

    /// Sends each named subscription the frame of the node it watches,
    /// skipping frames already delivered; a subscription whose channel can
    /// no longer take a frame is dropped, exactly as `unsubscribe` would
    /// drop it. `updates` must name every subscription whose remembered
    /// frame may lag its node's fresh one; afterwards every surviving
    /// subscription again holds its node's current frame.
    #[verifier::loop_isolation(false)]
    fn deliver(&mut self, updates: Vec<u128>)
        requires
            old(self).links_wf(),
            acyclic(old(self).nodes_map()),
            forall|s: u128| #[trigger] old(self).subs_map().contains_key(s)
                ==> updates@.contains(s) || old(self).subs_map()[s].last_frame() == old(
                self,
            ).states_map()[old(self).subs_map()[s].input]@,
        ensures
            final(self).wf(),
            final(self).nodes_map() == old(self).nodes_map(),
            final(self).states_map() == old(self).states_map(),
            forall|s: u128| #[trigger] final(self).subs_map().contains_key(s) ==> old(
                self,
            ).subs_map().contains_key(s) && final(self).subs_map()[s].id == old(
                self,
            ).subs_map()[s].id && final(self).subs_map()[s].input == old(
                self,
            ).subs_map()[s].input,
            // a subscription with nothing to hear is left entirely alone
            forall|s: u128| #[trigger] old(self).subs_map().contains_key(s) && old(
                self,
            ).subs_map()[s].last_frame() == old(self).states_map()[old(
                self,
            ).subs_map()[s].input]@ ==> final(self).subs_map().contains_key(s)
                && final(self).subs_map()[s] == old(self).subs_map()[s],
    {
        for ui in 0..updates.len()
            invariant
                self.links_wf(),
                self.nodes_map() == old(self).nodes_map(),
                self.states_map() == old(self).states_map(),
                forall|s: u128| #[trigger] self.subs_map().contains_key(s) ==> old(
                    self,
                ).subs_map().contains_key(s) && self.subs_map()[s].id == old(
                    self,
                ).subs_map()[s].id && self.subs_map()[s].input == old(self).subs_map()[s].input,
                forall|s: u128| #[trigger] self.subs_map().contains_key(s) ==> (exists|jj: int|
                    ui <= jj < updates@.len() && updates@[jj] == s) || self.subs_map()[s].last_frame()
                    == self.states_map()[self.subs_map()[s].input]@,
                forall|s: u128| #[trigger] old(self).subs_map().contains_key(s) && old(
                    self,
                ).subs_map()[s].last_frame() == old(self).states_map()[old(
                    self,
                ).subs_map()[s].input]@ ==> self.subs_map().contains_key(s) && self.subs_map()[s]
                    == old(self).subs_map()[s],
        {
            let sid = updates[ui];
            let ghost pre = *self;
            if self.subscriptions.contains_key(&sid) {
                let taken = self.subscriptions.remove(&sid);
                match taken {
                    Some(mut sub) => {
                        let outcome = sub.update(&self.node_states);
                        match outcome {
                            Ok(()) => {
                                self.subscriptions.insert(sid, sub);
                                proof {
                                    assert(self.subs_map() =~= pre.subs_map().insert(
                                        sid,
                                        self.subs_map()[sid],
                                    ));
                                    self.lemma_replace_sub_wf(pre, sid);
                                    assert(self.subs_map()[sid] == sub);
                                    self.lemma_deliver_step(pre, updates@, ui as int, sid);
                                    assert forall|s: u128|
                                        #[trigger] old(self).subs_map().contains_key(s) && old(
                                            self,
                                        ).subs_map()[s].last_frame() == old(self).states_map()[old(
                                            self,
                                        ).subs_map()[s].input]@ implies
                                        self.subs_map().contains_key(s) && self.subs_map()[s]
                                            == old(self).subs_map()[s] by {
                                        assert(pre.subs_map().contains_key(s)
                                            && pre.subs_map()[s] == old(self).subs_map()[s]);
                                        if s != sid {
                                            assert(self.subs_map()[s] == pre.subs_map()[s]);
                                        }
                                    }
                                }
                            },
                            Err(SubscriptionError::NoInput) => {
                                proof {
                                    assert(pre.subs_map()[sid].input == sub.input);
                                    assert(pre.nodes_map().contains_key(sub.input));
                                    assert(pre.states_map().contains_key(sub.input));
                                    assert(false);
                                }
                            },
                            Err(SubscriptionError::ChannelClosed) => {
                                // the channel cannot take frames any more:
                                // drop the subscription and free its slot
                                let input = sub.input;
                                let slot = sub.slot;
                                let entry = match self.dependencies.get(&input) {
                                    Some(entry) => entry,
                                    None => {
                                        proof {
                                            assert(false);
                                        }
                                        return;
                                    },
                                };
                                let mut fresh = entry.duplicate();
                                proof {
                                    crate::deps::lemma_revlist_domain(entry.reverse);
                                    crate::deps::lemma_revlist_lookup(entry.reverse, choose|
                                        j: int,
                                    |
                                        0 <= j < entry.reverse@.len() && entry.reverse@[j].0
                                            == slot);
                                }
                                fresh.reverse.remove(slot);
                                self.dependencies.insert(input, fresh);
                                proof {
                                    self.lemma_unsubscribe_wf(pre, sid, input, slot);
                                    self.lemma_deliver_step(pre, updates@, ui as int, sid);
                                    assert forall|s: u128|
                                        #[trigger] old(self).subs_map().contains_key(s) && old(
                                            self,
                                        ).subs_map()[s].last_frame() == old(self).states_map()[old(
                                            self,
                                        ).subs_map()[s].input]@ implies
                                        self.subs_map().contains_key(s) && self.subs_map()[s]
                                            == old(self).subs_map()[s] by {
                                        assert(pre.subs_map().contains_key(s)
                                            && pre.subs_map()[s] == old(self).subs_map()[s]);
                                        // a channel refuses only a frame that
                                        // differed, so the dropped watcher is
                                        // not one with nothing to hear
                                        assert(s != sid);
                                        assert(self.subs_map()[s] == pre.subs_map()[s]);
                                    }
                                }
                            },
                        }
                    },
                    None => {
                        proof {
                            assert(false);
                        }
                    },
                }
            } else {
                proof {
                    assert(self.subs_map() =~= pre.subs_map());
                    self.lemma_deliver_step(pre, updates@, ui as int, sid);
                    assert forall|s: u128|
                        #[trigger] old(self).subs_map().contains_key(s) && old(
                            self,
                        ).subs_map()[s].last_frame() == old(self).states_map()[old(
                            self,
                        ).subs_map()[s].input]@ implies self.subs_map().contains_key(s)
                        && self.subs_map()[s] == old(self).subs_map()[s] by {
                        assert(pre.subs_map().contains_key(s) && pre.subs_map()[s] == old(
                            self,
                        ).subs_map()[s]);
                    }
                }
            }
        }
        proof {
            assert(self.subs_current());
        }
    }

    /// One delivery step keeps the coverage invariant: every subscription
    /// is refreshed now, still named later in the list, or already current.
    proof fn lemma_deliver_step(self, pre: SceneGraph, updates: Seq<u128>, ui: int, sid: u128)
        requires
            0 <= ui < updates.len(),
            updates[ui] == sid,
            self.states_map() == pre.states_map(),
            forall|s: u128| #[trigger] pre.subs_map().contains_key(s) ==> (exists|jj: int|
                ui <= jj < updates.len() && updates[jj] == s) || pre.subs_map()[s].last_frame()
                == pre.states_map()[pre.subs_map()[s].input]@,
            forall|s: u128| s != sid && #[trigger] self.subs_map().contains_key(s)
                ==> pre.subs_map().contains_key(s) && self.subs_map()[s] == pre.subs_map()[s],
            self.subs_map().contains_key(sid) ==> self.subs_map()[sid].last_frame()
                == self.states_map()[self.subs_map()[sid].input]@,
        ensures
            forall|s: u128| #[trigger] self.subs_map().contains_key(s) ==> (exists|jj: int|
                ui + 1 <= jj < updates.len() && updates[jj] == s)
                || self.subs_map()[s].last_frame()
                == self.states_map()[self.subs_map()[s].input]@,
    {
        assert forall|s: u128|
            #[trigger] self.subs_map().contains_key(s) && !(exists|jj: int|
                ui + 1 <= jj < updates.len() && updates[jj] == s) implies
            self.subs_map()[s].last_frame()
                == self.states_map()[self.subs_map()[s].input]@ by {
            if s != sid {
                assert(pre.subs_map().contains_key(s));
                if pre.subs_map()[s].last_frame() != pre.states_map()[pre.subs_map()[s].input]@ {
                    let jj = choose|jj: int| ui <= jj < updates.len() && updates[jj] == s;
                    assert(jj != ui);
                    assert(false);
                }
            }
        }
    }

    /// Deletes the node under `id`. Its dependents keep running with that
    /// input read as the zero frame, their frames are recomputed, and every
    /// subscription watching the deleted node is closed. Removing a present
    /// node always succeeds — dissolving edges can close no cycle — and
    /// naming an absent one is refused and leaves the graph untouched.
    #[verifier::loop_isolation(false)]
    #[verifier::rlimit(100)]
    pub fn remove(&mut self, id: u128) -> (r: Result<(), Error>)
        requires
            old(self).wf(),
        ensures
            final(self).wf(),
            match r {
                Ok(()) => {
                    &&& old(self).nodes_map().contains_key(id)
                    &&& final(self).nodes_map().dom() =~= old(self).nodes_map().dom().remove(id)
                    &&& final(self).states_map().dom() =~= old(self).nodes_map().dom().remove(id)
                    &&& forall|m: u128| m != id && #[trigger] old(
                        self,
                    ).nodes_map().contains_key(m) ==> final(self).nodes_map()[m] == old(
                        self,
                    ).nodes_map()[m].without_input(id)
                    &&& forall|s: u128| #[trigger] final(self).subs_map().contains_key(s) ==> old(
                        self,
                    ).subs_map().contains_key(s) && final(self).subs_map()[s].id == old(
                        self,
                    ).subs_map()[s].id && final(self).subs_map()[s].input == old(
                        self,
                    ).subs_map()[s].input && final(self).subs_map()[s].input != id
                    // a surviving watcher of a node whose frame did not
                    // change is left entirely alone
                    &&& forall|s: u128| #[trigger] old(self).subs_map().contains_key(s) && old(
                        self,
                    ).subs_map()[s].input != id && final(self).states_map()[old(
                        self,
                    ).subs_map()[s].input]@ == old(self).states_map()[old(
                        self,
                    ).subs_map()[s].input]@
                        ==> final(self).subs_map().contains_key(s)
                        && final(self).subs_map()[s] == old(self).subs_map()[s]
                },
                Err(e) => {
                    &&& *final(self) == *old(self)
                    &&& e == Error::UnknownNode
                    &&& !old(self).nodes_map().contains_key(id)
                },
            },
    {
        if !self.nodes.contains_key(&id) {
            return Err(Error::UnknownNode);
        }
        let ghost nodes0 = self.nodes@;
        let ghost deps0 = self.dependencies@;
        let ghost states0 = self.node_states@;

        let mut deps_tx: Transaction<Dependencies> = Transaction::new();
        let mut nodes_tx: Transaction<Node> = Transaction::new();
        let mut states_tx: Transaction<Frame> = Transaction::new();

        // detach the node's forward edges from its upstreams
        let old_forward: Vec<Option<(u128, u128)>> = match self.dependencies.get(&id) {
            Some(entry) => entry.duplicate().forward,
            None => {
                proof {
                    assert(false);
                }
                Vec::new()
            },
        };
        proof {
            assert(old_forward@ == deps0[id].forward@);
        }
        for fi in 0..old_forward.len()
            invariant
                forall|m: u128| #[trigger] deps_tx.staged(deps0).contains_key(m)
                    <==> deps0.contains_key(m),
                forall|m: u128| #[trigger] deps0.contains_key(m) ==> deps_tx.staged(
                    deps0,
                )[m].forward@ == deps0[m].forward@,
                forall|m: u128| #[trigger] deps0.contains_key(m) ==> deps_tx.staged(
                    deps0,
                )[m].reverse.wf(),
                forall|m: u128, k: u128|
                    #![trigger deps_tx.staged(deps0)[m].reverse.slots().contains_key(k)]
                    deps0.contains_key(m) && deps_tx.staged(deps0)[m].reverse.slots().contains_key(
                        k,
                    ) ==> deps0[m].reverse.slots().contains_key(k) && deps_tx.staged(
                        deps0,
                    )[m].reverse.slots()[k] == deps0[m].reverse.slots()[k],
                forall|m: u128, k: u128|
                    #![trigger deps0[m].reverse.slots().contains_key(k)]
                    deps0.contains_key(m) && deps0[m].reverse.slots().contains_key(k) && !(
                    exists|j: int|
                        0 <= j < fi && old_forward@[j] == Some((m, k))) ==> deps_tx.staged(
                        deps0,
                    )[m].reverse.slots().contains_key(k),
                forall|j: int, m: u128, k: u128|
                    #![trigger old_forward@[j], deps_tx.staged(deps0)[m].reverse.slots().contains_key(k)]
                    0 <= j < fi && old_forward@[j] == Some((m, k)) ==> !deps_tx.staged(
                        deps0,
                    )[m].reverse.slots().contains_key(k),
                deps_tx.wf(),
        {
            let ghost pre_staged = deps_tx.staged(deps0);
            match old_forward[fi] {
                Some((u, k)) => {
                    proof {
                        assert(old(self).deps_map()[id].forward@[fi as int] == Some((u, k)));
                        assert(nodes0.contains_key(u));
                    }
                    let upstream = match deps_tx.get(&self.dependencies, u) {
                        Some(entry) => entry,
                        None => {
                            proof {
                                assert(false);
                            }
                            return Err(Error::Cycle);
                        },
                    };
                    let mut fresh = upstream.duplicate();
                    fresh.reverse.remove(k);
                    deps_tx.insert(u, fresh);
                    proof {
                        assert forall|m: u128, kk: u128|
                            deps0.contains_key(m) && deps0[m].reverse.slots().contains_key(kk)
                                && !(exists|j: int|
                                0 <= j < fi + 1 && old_forward@[j] == Some(
                                    (m, kk),
                                )) implies #[trigger] deps_tx.staged(
                            deps0,
                        )[m].reverse.slots().contains_key(kk) by {
                            assert(!(exists|j: int| 0 <= j < fi && old_forward@[j] == Some(
                                (m, kk),
                            )));
                            assert(pre_staged[m].reverse.slots().contains_key(kk));
                            if m == u {
                                assert(!(old_forward@[fi as int] == Some((m, kk))));
                                assert(kk != k);
                            }
                        }
                        assert forall|j: int, m: u128, kk: u128|
                            0 <= j < fi + 1 && #[trigger] old_forward@[j] == Some(
                                (m, kk),
                            ) implies !(#[trigger] deps_tx.staged(
                            deps0,
                        )[m].reverse.slots().contains_key(kk)) by {
                            if j < fi {
                                assert(!pre_staged[m].reverse.slots().contains_key(kk));
                            } else {
                                assert(m == u && kk == k);
                            }
                        }
                    }
                },
                None => {},
            }
        }
        let ghost sda = deps_tx.staged(deps0);

        // stage the node itself as fully unbound; its record dies with the
        // commit, but the staged tables stay consistent while the frame
        // cache is rebuilt
        let id_node = match self.nodes.get(&id) {
            Some(node) => *node,
            None => {
                proof {
                    assert(false);
                }
                return Err(Error::Cycle);
            },
        };
        let rev: RevList = match deps_tx.get(&self.dependencies, id) {
            Some(entry) => entry.duplicate().reverse,
            None => {
                proof {
                    assert(false);
                }
                return Err(Error::Cycle);
            },
        };
        let arity = id_node.dependencies().len();
        let mut none_forward: Vec<Option<(u128, u128)>> = Vec::new();
        for ni in 0..arity
            invariant
                none_forward@.len() == ni,
                forall|j: int| 0 <= j < ni ==> none_forward@[j] is None,
        {
            none_forward.push(None);
        }
        nodes_tx.insert(id, id_node.unbound());
        let rev_copy = rev.duplicate();
        deps_tx.insert(id, Dependencies { forward: none_forward, reverse: rev_copy });
        proof {
            assert(rev.wf());
            assert(rev@ == sda[id].reverse@);
        }

        // unlink every dependent from the departing node
        let mut origins: Vec<u128> = Vec::new();
        origins.push(id);
        let revlen = rev.len();
        for ri in 0..revlen
            invariant
                revlen == rev@.len(),
                origins@.no_duplicates(),
                origins@[0] == id,
                origins@.len() >= 1,
                forall|i: int| 0 <= i < origins@.len() ==> nodes0.contains_key(
                    #[trigger] origins@[i],
                ),
                forall|m: u128| #[trigger] nodes_tx.staged(nodes0).contains_key(m)
                    <==> nodes0.contains_key(m),
                forall|m: u128| #[trigger] deps_tx.staged(deps0).contains_key(m)
                    <==> deps0.contains_key(m),
                forall|m: u128| m != id && #[trigger] nodes0.contains_key(m)
                    && !origins@.contains(m) ==> nodes_tx.staged(nodes0)[m] == nodes0[m]
                    && deps_tx.staged(deps0)[m] == sda[m],
                forall|m: u128| m != id && #[trigger] origins@.contains(m) ==> nodes_tx.staged(
                    nodes0,
                )[m] == nodes0[m].without_input(id) && deps_tx.staged(deps0)[m].forward@
                    == crate::graph::cleared_fwd(deps0[m].forward@, id) && deps_tx.staged(
                    deps0,
                )[m].reverse@ == sda[m].reverse@,
                nodes_tx.staged(nodes0)[id] == nodes0[id].unbound_spec(),
                deps_tx.staged(deps0)[id].forward@.len() == nodes0[id].arity(),
                forall|j: int| 0 <= j < nodes0[id].arity() ==> deps_tx.staged(
                    deps0,
                )[id].forward@[j] is None,
                deps_tx.staged(deps0)[id].reverse@ == rev@,
                forall|j: int|
                    #![trigger rev@[j]]
                    0 <= j < ri ==> (rev@[j].1 matches Dependent::Node { id: d, .. }
                        ==> origins@.contains(d)),
                nodes_tx.wf(),
                deps_tx.wf(),
        {
            let (_slot, dep) = rev.entry(ri);
            let ghost pre_origins = origins@;
            let ghost pre_sn = nodes_tx.staged(nodes0);
            let ghost pre_sd = deps_tx.staged(deps0);
            match dep {
                Dependent::Node { id: m, index: _ } => {
                    proof {
                        crate::deps::lemma_revlist_lookup(rev, ri as int);
                        assert(sda[id].reverse.slots().contains_key(rev@[ri as int].0));
                        assert(deps0[id].reverse.slots().contains_key(rev@[ri as int].0));
                        crate::deps::lemma_revlist_domain(old(self).deps_map()[id].reverse);
                        let j0 = choose|j0: int|
                            0 <= j0 < deps0[id].reverse@.len() && (
                            #[trigger] deps0[id].reverse@[j0]).0 == rev@[ri as int].0;
                        crate::deps::lemma_revlist_lookup(old(self).deps_map()[id].reverse, j0);
                        assert(old(self).deps_map()[id].reverse@[j0] == (
                            rev@[ri as int].0,
                            dep,
                        ));
                        assert(nodes0.contains_key(m));
                        assert(m != id) by {
                            if m == id {
                                let i0 = old(self).deps_map()[id].reverse@[j0].1->Node_index;
                                assert(old(self).deps_map()[id].forward@[i0 as int] == Some(
                                    (id, rev@[ri as int].0),
                                ));
                                assert(old_forward@[i0 as int] == Some((id, rev@[ri as int].0)));
                                assert(!sda[id].reverse.slots().contains_key(rev@[ri as int].0));
                                assert(false);
                            }
                        }
                    }
                    let node_m = match nodes_tx.get(&self.nodes, m) {
                        Some(node) => *node,
                        None => {
                            proof {
                                assert(false);
                            }
                            return Err(Error::Cycle);
                        },
                    };
                    let entry_m = match deps_tx.get(&self.dependencies, m) {
                        Some(entry) => entry.duplicate(),
                        None => {
                            proof {
                                assert(false);
                            }
                            return Err(Error::Cycle);
                        },
                    };
                    let ghost had = pre_origins.contains(m);
                    let cleared = clear_forward(&entry_m.forward, id);
                    let new_node = node_m.drop_input(id);
                    nodes_tx.insert(m, new_node);
                    deps_tx.insert(
                        m,
                        Dependencies { forward: cleared, reverse: entry_m.reverse },
                    );
                    if !vec_contains(&origins, m) {
                        origins.push(m);
                    }
                    proof {
                        if had {
                            assert(nodes_tx.staged(nodes0)[m] == nodes0[m].without_input(id)) by {
                                assert(node_m == nodes0[m].without_input(id));
                                assert(nodes0[m].without_input(id).without_input(id)
                                    == nodes0[m].without_input(id));
                            }
                            assert(deps_tx.staged(deps0)[m].forward@ == crate::graph::cleared_fwd(
                                deps0[m].forward@,
                                id,
                            )) by {
                                assert(entry_m.forward@ == crate::graph::cleared_fwd(
                                    deps0[m].forward@,
                                    id,
                                ));
                                assert(cleared@ =~= crate::graph::cleared_fwd(
                                    deps0[m].forward@,
                                    id,
                                ));
                            }
                        } else {
                            assert(node_m == nodes0[m]);
                            assert(entry_m.forward@ == sda[m].forward@);
                            assert(sda[m].forward@ == deps0[m].forward@);
                        }
                        assert forall|x: u128| pre_origins.contains(x) implies origins@.contains(
                            x,
                        ) by {
                            let w = choose|w: int|
                                0 <= w < pre_origins.len() && pre_origins[w] == x;
                            assert(origins@[w] == x);
                        }
                        if !pre_origins.contains(m) {
                            assert(origins@.last() == m);
                        }
                        assert(origins@.contains(m));
                        assert forall|j: int| 0 <= j < ri + 1 implies ((#[trigger] rev@[j]).1
                            matches Dependent::Node { id: d, .. } ==> origins@.contains(d)) by {
                            if j < ri {
                            } else {
                                assert(rev@[j].1 == dep);
                            }
                        }
                        assert(nodes_tx.staged(nodes0)[m] == nodes0[m].without_input(id)) by {
                            if !had {
                                assert(new_node == nodes0[m].without_input(id));
                            }
                        }
                        assert(deps_tx.staged(deps0)[m].forward@ == crate::graph::cleared_fwd(
                            deps0[m].forward@,
                            id,
                        )) by {
                            if !had {
                                assert(entry_m.forward@ == deps0[m].forward@);
                                assert(cleared@ =~= crate::graph::cleared_fwd(
                                    deps0[m].forward@,
                                    id,
                                ));
                            }
                        }
                        assert(deps_tx.staged(deps0)[m].reverse@ == sda[m].reverse@) by {
                            if had {
                                assert(entry_m.reverse@ == pre_sd[m].reverse@);
                                assert(pre_sd[m].reverse@ == sda[m].reverse@);
                            } else {
                                assert(pre_sd[m] == sda[m]);
                                assert(entry_m.reverse@ == sda[m].reverse@);
                            }
                        }
                        assert forall|x: u128| x != id && #[trigger] origins@.contains(
                            x,
                        ) implies nodes_tx.staged(nodes0)[x] == nodes0[x].without_input(id)
                            && deps_tx.staged(deps0)[x].forward@ == crate::graph::cleared_fwd(
                            deps0[x].forward@,
                            id,
                        ) && deps_tx.staged(deps0)[x].reverse@ == sda[x].reverse@ by {
                            if x != m {
                                let w = choose|w: int|
                                    0 <= w < origins@.len() && origins@[w] == x;
                                assert(pre_origins.contains(x)) by {
                                    if w < pre_origins.len() {
                                        assert(pre_origins[w] == x);
                                    }
                                }
                                assert(nodes_tx.staged(nodes0)[x] == pre_sn[x]);
                                assert(deps_tx.staged(deps0)[x] == pre_sd[x]);
                            }
                        }
                        assert forall|x: u128| x != id && #[trigger] nodes0.contains_key(x)
                            && !origins@.contains(x) implies nodes_tx.staged(nodes0)[x]
                            == nodes0[x] && deps_tx.staged(deps0)[x] == sda[x] by {
                            assert(!pre_origins.contains(x));
                            assert(x != m);
                        }
                    }
                },
                Dependent::Subscription { id: _ } => {
                    proof {
                        assert forall|j: int| 0 <= j < ri + 1 implies ((#[trigger] rev@[j]).1
                            matches Dependent::Node { id: d, .. } ==> origins@.contains(d)) by {
                            if j == ri {
                                assert(rev@[j].1 == dep);
                            }
                        }
                    }
                },
            }
        }

        let ghost sn1 = nodes_tx.staged(nodes0);
        let ghost sd1 = deps_tx.staged(deps0);
        proof {
            assert(tables_wf(sn1, sd1)) by {
                assert(sd1.dom() =~= sn1.dom());
                assert forall|n: u128| #[trigger] sn1.contains_key(n) implies sn1[n].wf()
                    && sd1[n].reverse.wf() && sd1[n].forward@.len() == sn1[n].arity() by {
                    assert(nodes0.contains_key(n));
                    if n == id {
                        assert(sn1[id] == nodes0[id].unbound_spec());
                    } else if origins@.contains(n) {
                        assert(sn1[n] == nodes0[n].without_input(id));
                        assert(sd1[n].forward@.len() == deps0[n].forward@.len());
                    } else {
                        assert(sn1[n] == nodes0[n] && sd1[n] == sda[n]);
                        assert(sda[n].forward@ == deps0[n].forward@);
                    }
                }
            }
            assert(forward_edges_ok(sn1, sd1)) by {
                assert forall|n: u128, i: int|
                    sn1.contains_key(n) && 0 <= i < sd1[n].forward@.len() implies match (
                #[trigger] sd1[n].forward@[i]) {
                    Some((m, k)) => {
                        &&& sn1[n].dep(i) == Some(m)
                        &&& sn1.contains_key(m)
                        &&& sd1[m].reverse.slots().contains_key(k)
                        &&& sd1[m].reverse.slots()[k] == (Dependent::Node {
                            id: n,
                            index: i as u32,
                        })
                    },
                    None => sn1[n].dep(i) is None,
                } by {
                    if n == id {
                        assert(sd1[id].forward@[i] is None);
                        assert(sn1[id].dep(i) is None);
                    } else {
                        let ghost base_fwd = if origins@.contains(n) {
                            crate::graph::cleared_fwd(deps0[n].forward@, id)
                        } else {
                            deps0[n].forward@
                        };
                        assert(sd1[n].forward@ == base_fwd);
                        match deps0[n].forward@[i] {
                            Some((m0, k0)) => {
                                assert(old(self).deps_map()[n].forward@[i] == Some((m0, k0)));
                                assert(deps0[m0].reverse.slots().contains_key(k0)
                                    && deps0[m0].reverse.slots()[k0] == (Dependent::Node {
                                    id: n,
                                    index: i as u32,
                                }));
                                if m0 == id {
                                    // this edge was cleared: `n` is a
                                    // dependent of the departing node
                                    crate::deps::lemma_revlist_domain(
                                        old(self).deps_map()[id].reverse,
                                    );
                                    assert(!(exists|j: int|
                                        0 <= j < old_forward@.len() && old_forward@[j] == Some(
                                            (id, k0),
                                        ))) by {
                                        if exists|j: int|
                                            0 <= j < old_forward@.len() && old_forward@[j]
                                                == Some((id, k0)) {
                                            let j = choose|j: int|
                                                0 <= j < old_forward@.len() && old_forward@[j]
                                                    == Some((id, k0));
                                            assert(old(self).deps_map()[id].forward@[j] == Some(
                                                (id, k0),
                                            ));
                                            assert(deps0[id].reverse.slots()[k0] == (
                                            Dependent::Node { id, index: j as u32 }));
                                            assert(false);
                                        }
                                    }
                                    assert(sda[id].reverse.slots().contains_key(k0)
                                        && sda[id].reverse.slots()[k0]
                                        == deps0[id].reverse.slots()[k0]);
                                    crate::deps::lemma_revlist_domain(sda[id].reverse);
                                    let jr = choose|jr: int|
                                        0 <= jr < sda[id].reverse@.len() && (
                                        #[trigger] sda[id].reverse@[jr]).0 == k0;
                                    crate::deps::lemma_revlist_lookup(sda[id].reverse, jr);
                                    assert(rev@[jr] == (k0, Dependent::Node {
                                        id: n,
                                        index: i as u32,
                                    }));
                                    assert(origins@.contains(n));
                                    assert(sd1[n].forward@[i] is None);
                                    assert(sn1[n] == nodes0[n].without_input(id));
                                    assert(nodes0[n].dep(i) == Some(id));
                                    assert(sn1[n].dep(i) is None);
                                } else {
                                    // the upstream survives; its handle was
                                    // never detached
                                    assert(!(exists|j: int|
                                        0 <= j < old_forward@.len() && old_forward@[j] == Some(
                                            (m0, k0),
                                        ))) by {
                                        if exists|j: int|
                                            0 <= j < old_forward@.len() && old_forward@[j]
                                                == Some((m0, k0)) {
                                            let j = choose|j: int|
                                                0 <= j < old_forward@.len() && old_forward@[j]
                                                    == Some((m0, k0));
                                            assert(old(self).deps_map()[id].forward@[j] == Some(
                                                (m0, k0),
                                            ));
                                            assert(deps0[m0].reverse.slots()[k0] == (
                                            Dependent::Node { id, index: j as u32 }));
                                            assert(false);
                                        }
                                    }
                                    assert(sda[m0].reverse.slots().contains_key(k0)
                                        && sda[m0].reverse.slots()[k0]
                                        == deps0[m0].reverse.slots()[k0]);
                                    assert(sd1[m0].reverse@ == sda[m0].reverse@ || (m0 == id));
                                    assert(sd1[m0].reverse.slots().contains_key(k0)
                                        && sd1[m0].reverse.slots()[k0] == (Dependent::Node {
                                        id: n,
                                        index: i as u32,
                                    }));
                                    assert(sd1[n].forward@[i] == Some((m0, k0)));
                                    assert(sn1[n].dep(i) == Some(m0)) by {
                                        if origins@.contains(n) {
                                            assert(nodes0[n].dep(i) == Some(m0));
                                            assert(sn1[n] == nodes0[n].without_input(id));
                                        }
                                    }
                                }
                            },
                            None => {
                                assert(old(self).deps_map()[n].forward@[i] is None);
                                assert(nodes0[n].dep(i) is None);
                                assert(sd1[n].forward@[i] is None);
                                assert(sn1[n].dep(i) is None) by {
                                    if origins@.contains(n) {
                                        assert(sn1[n] == nodes0[n].without_input(id));
                                    }
                                }
                            },
                        }
                    }
                }
            }
            assert(reverse_nodes_ok(sn1, sd1)) by {
                assert forall|m: u128, j: int|
                    sn1.contains_key(m) && 0 <= j < sd1[m].reverse@.len() implies ((
                #[trigger] sd1[m].reverse@[j]).1 matches Dependent::Node { id: n, .. }
                    ==> sn1.contains_key(n)) by {
                    crate::deps::lemma_revlist_lookup(sd1[m].reverse, j);
                    let k = sd1[m].reverse@[j].0;
                    let v = sd1[m].reverse@[j].1;
                    assert(sd1[m].reverse@ == sda[m].reverse@);
                    assert(sda[m].reverse.slots().contains_key(k) && sda[m].reverse.slots()[k]
                        == v);
                    assert(deps0[m].reverse.slots().contains_key(k)
                        && deps0[m].reverse.slots()[k] == v);
                    crate::deps::lemma_revlist_domain(old(self).deps_map()[m].reverse);
                    let j0 = choose|j0: int|
                        0 <= j0 < deps0[m].reverse@.len() && (#[trigger] deps0[m].reverse@[j0]).0
                            == k;
                    crate::deps::lemma_revlist_lookup(old(self).deps_map()[m].reverse, j0);
                    assert(old(self).deps_map()[m].reverse@[j0] == (k, v));
                    match v {
                        Dependent::Node { id: n, .. } => {
                            assert(nodes0.contains_key(n));
                        },
                        Dependent::Subscription { .. } => {},
                    }
                }
            }
            assert forall|n: u128| #[trigger] sn1.contains_key(n) && !origins@.contains(
                n,
            ) implies states_tx.staged(states0).contains_key(n) by {
                assert(nodes0.contains_key(n));
                assert(states0.contains_key(n));
            }
            assert forall|n: u128| #[trigger] states_tx.staged(states0).contains_key(n)
                && !origins@.contains(n) implies states_tx.staged(states0)[n]@ == spec_eval(
                sn1[n],
                frames_view(states_tx.staged(states0)),
            ) by {
                assert(states_tx.staged(states0) =~= states0);
                assert(n != id);
                assert(sn1[n] == nodes0[n]);
                assert(old(self).states_map()[n]@ == spec_eval(
                    old(self).nodes_map()[n],
                    frames_view(old(self).states_map()),
                ));
            }
            assert(states_tx.staged(states0) =~= states0);
            assert(acyclic(nodes0));
            assert forall|n: u128| sn1.contains_key(n) && !origins@.contains(n) implies
                nodes0.contains_key(n) && sn1[n] == nodes0[n] by {
                assert(origins@[0] == id);
            }
            // the staged edges only lose bindings, so the old depth witness
            // still runs downhill: the re-evaluation cannot find a cycle
            let depth0 = choose|d: Map<u128, int>| edges_increase(nodes0, d);
            assert(edges_increase(sn1, depth0)) by {
                assert forall|v: u128, i: int|
                    sn1.contains_key(v) && 0 <= i < sn1[v].arity() && #[trigger] sn1[v].dep(
                        i,
                    ) is Some implies depth0[sn1[v].dep(i)->Some_0] < depth0[v] by {
                    assert(nodes0.contains_key(v));
                    if v == id {
                        nodes0[id].lemma_unbound_deps();
                        assert(false);
                    } else if origins@.contains(v) {
                        nodes0[v].lemma_without_input_deps(id);
                        assert(sn1[v].dep(i) == nodes0[v].dep(i));
                        assert(0 <= i < nodes0[v].arity());
                    } else {
                        assert(sn1[v] == nodes0[v]);
                    }
                }
            }
            assert(acyclic(sn1));
        }

        let updates = match update(
            &origins,
            &self.nodes,
            &nodes_tx,
            &self.node_states,
            &mut states_tx,
            &self.dependencies,
            &deps_tx,
        ) {
            Ok(updates) => updates,
            Err(_) => {
                proof {
                    assert(false);
                }
                return Err(Error::UnknownNode);
            },
        };

        let ghost s1 = states_tx.staged(states0);
        nodes_tx.commit(&mut self.nodes);
        states_tx.commit(&mut self.node_states);
        deps_tx.commit(&mut self.dependencies);

        // the departing node leaves all three tables, and every
        // subscription watching it is told and dropped
        self.nodes.remove(&id);
        self.node_states.remove(&id);
        self.dependencies.remove(&id);
        for ci in 0..revlen
            invariant
                revlen == rev@.len(),
                self.nodes@ == sn1.remove(id),
                self.node_states@ == s1.remove(id),
                self.dependencies@ == sd1.remove(id),
                forall|s: u128| #[trigger] self.subscriptions@.contains_key(s)
                    <==> old(self).subs_map().contains_key(s) && !(exists|j: int|
                    0 <= j < ci && (#[trigger] rev@[j]).1 == (Dependent::Subscription {
                        id: s,
                    })),
                forall|s: u128| #[trigger] self.subscriptions@.contains_key(s)
                    ==> self.subscriptions@[s] == old(self).subs_map()[s],
        {
            let (_slot, dep) = rev.entry(ci);
            let ghost pre_subs = self.subscriptions@;
            match dep {
                Dependent::Subscription { id: sid } => {
                    let taken = self.subscriptions.remove(&sid);
                    match taken {
                        Some(sub) => {
                            sub.close();
                        },
                        None => {},
                    }
                    proof {
                        assert(self.subscriptions@ =~= pre_subs.remove(sid));
                        assert forall|s: u128| #[trigger] self.subscriptions@.contains_key(s)
                            <==> old(self).subs_map().contains_key(s) && !(exists|j: int|
                            0 <= j < ci + 1 && (#[trigger] rev@[j]).1 == (
                            Dependent::Subscription { id: s })) by {
                            if s != sid {
                                if pre_subs.contains_key(s) {
                                    assert(!(exists|j: int|
                                        0 <= j < ci && rev@[j].1 == (Dependent::Subscription {
                                            id: s,
                                        })));
                                }
                            } else {
                                assert(rev@[ci as int].1 == (Dependent::Subscription { id: s }));
                            }
                        }
                    }
                },
                Dependent::Node { .. } => {
                    proof {
                        assert forall|s: u128| #[trigger] self.subscriptions@.contains_key(s)
                            <==> old(self).subs_map().contains_key(s) && !(exists|j: int|
                            0 <= j < ci + 1 && (#[trigger] rev@[j]).1 == (
                            Dependent::Subscription { id: s })) by {
                            if self.subscriptions@.contains_key(s) {
                                assert(!(exists|j: int|
                                    0 <= j < ci && rev@[j].1 == (Dependent::Subscription {
                                        id: s,
                                    })));
                                assert(rev@[ci as int].1 != (Dependent::Subscription { id: s }));
                            }
                        }
                    }
                },
            }
        }
        proof {
            self.lemma_remove_wf(*old(self), id, sn1, sd1, s1, sda, rev@, origins@, old_forward@);
            assert forall|m: u128| m != id && #[trigger] nodes0.contains_key(m) implies
                self.nodes_map()[m] == nodes0[m].without_input(id) by {
                if origins@.contains(m) {
                } else {
                    assert(self.nodes_map()[m] == nodes0[m]);
                    assert forall|i: int| 0 <= i < nodes0[m].arity() implies nodes0[m].dep(i)
                        != Some(id) by {
                        if nodes0[m].dep(i) == Some(id) {
                            assert(old(self).deps_map()[m].forward@.len() == nodes0[m].arity());
                            match old(self).deps_map()[m].forward@[i] {
                                Some((mm, kk)) => {
                                    assert(mm == id);
                                    assert(deps0[id].reverse.slots().contains_key(kk)
                                        && deps0[id].reverse.slots()[kk] == (Dependent::Node {
                                        id: m,
                                        index: i as u32,
                                    }));
                                    assert(!(exists|j: int|
                                        0 <= j < old_forward@.len() && old_forward@[j] == Some(
                                            (id, kk),
                                        ))) by {
                                        if exists|j: int|
                                            0 <= j < old_forward@.len() && old_forward@[j]
                                                == Some((id, kk)) {
                                            let j = choose|j: int|
                                                0 <= j < old_forward@.len() && old_forward@[j]
                                                    == Some((id, kk));
                                            assert(old(self).deps_map()[id].forward@[j] == Some(
                                                (id, kk),
                                            ));
                                            assert(deps0[id].reverse.slots()[kk] == (
                                            Dependent::Node { id, index: j as u32 }));
                                            assert(false);
                                        }
                                    }
                                    assert(sda[id].reverse.slots().contains_key(kk));
                                    crate::deps::lemma_revlist_domain(sda[id].reverse);
                                    let jr = choose|jr: int|
                                        0 <= jr < rev@.len() && (#[trigger] rev@[jr]).0 == kk;
                                    crate::deps::lemma_revlist_lookup(rev, jr as int);
                                    assert(rev@[jr].1 == (Dependent::Node {
                                        id: m,
                                        index: i as u32,
                                    }));
                                    assert(origins@.contains(m));
                                    assert(false);
                                },
                                None => {
                                    assert(false);
                                },
                            }
                        }
                    }
                    nodes0[m].lemma_without_absent_input(id);
                }
            }
            // the shrunken table keeps the staged witness
            let d1 = choose|d: Map<u128, int>| edges_increase(sn1, d);
            assert(edges_increase(self.nodes_map(), d1)) by {
                assert forall|v: u128, i: int|
                    self.nodes_map().contains_key(v) && 0 <= i < self.nodes_map()[v].arity()
                        && #[trigger] self.nodes_map()[v].dep(i) is Some implies
                    d1[self.nodes_map()[v].dep(i)->Some_0] < d1[v] by {
                    assert(sn1.contains_key(v) && self.nodes_map()[v] == sn1[v]);
                }
            }
            assert(acyclic(self.nodes_map()));
            // every surviving watcher of a rewritten frame is in the walk's
            // list, so delivery restores every remembered frame
            assert forall|s: u128| #[trigger] self.subs_map().contains_key(s) implies
                updates@.contains(s) || self.subs_map()[s].last_frame()
                    == self.states_map()[self.subs_map()[s].input]@ by {
                let sub = self.subs_map()[s];
                let m = sub.input;
                assert(old(self).subs_map().contains_key(s) && old(self).subs_map()[s] == sub);
                assert(sub.last_frame() == old(self).states_map()[m]@);
                assert(m != id);
                assert(self.deps_map()[m].reverse.slots().contains_key(sub.slot)
                    && self.deps_map()[m].reverse.slots()[sub.slot] == (Dependent::Subscription {
                    id: s,
                }));
                crate::deps::lemma_revlist_domain(self.deps_map()[m].reverse);
                let jr = choose|jr: int|
                    0 <= jr < self.deps_map()[m].reverse@.len() && (
                    #[trigger] self.deps_map()[m].reverse@[jr]).0 == sub.slot;
                crate::deps::lemma_revlist_lookup(self.deps_map()[m].reverse, jr);
                assert(self.deps_map()[m] == sd1[m]);
                assert(sd1[m].reverse@[jr].1 == (Dependent::Subscription { id: s }));
                assert(sn1.contains_key(m));
                if states0.contains_key(m) && s1[m] == states0[m] {
                    assert(self.states_map()[m] == s1[m]);
                    assert(self.states_map()[m]@ == old(self).states_map()[m]@);
                } else {
                    assert(updates@.contains(s));
                }
            }
            // a subscription that watched some other node survived the
            // drop: only watchers of the departing node stood in its
            // reverse list
            assert forall|s: u128| #[trigger] old(self).subs_map().contains_key(s) && old(
                self,
            ).subs_map()[s].input != id implies self.subs_map().contains_key(s)
                && self.subs_map()[s] == old(self).subs_map()[s] by {
                assert(!(exists|j: int|
                    0 <= j < rev@.len() && (#[trigger] rev@[j]).1 == (Dependent::Subscription {
                        id: s,
                    }))) by {
                    if exists|j: int|
                        0 <= j < rev@.len() && (#[trigger] rev@[j]).1 == (
                        Dependent::Subscription { id: s }) {
                        let j = choose|j: int|
                            0 <= j < rev@.len() && (#[trigger] rev@[j]).1 == (
                            Dependent::Subscription { id: s });
                        crate::deps::lemma_revlist_lookup(rev, j);
                        let k = rev@[j].0;
                        assert(sda[id].reverse.slots().contains_key(k)
                            && sda[id].reverse.slots()[k] == (Dependent::Subscription { id: s }));
                        assert(deps0[id].reverse.slots().contains_key(k)
                            && deps0[id].reverse.slots()[k] == (Dependent::Subscription {
                            id: s,
                        }));
                        crate::deps::lemma_revlist_domain(old(self).deps_map()[id].reverse);
                        let j0 = choose|j0: int|
                            0 <= j0 < deps0[id].reverse@.len() && (
                            #[trigger] deps0[id].reverse@[j0]).0 == k;
                        crate::deps::lemma_revlist_lookup(old(self).deps_map()[id].reverse, j0);
                        assert(old(self).deps_map()[id].reverse@[j0].1 == (
                        Dependent::Subscription { id: s }));
                        assert(old(self).subs_map()[s].input == id);
                        assert(false);
                    }
                }
            }
        }
        self.deliver(updates);
        Ok(())
    }

    /// After the departing node's edges are dissolved, its frame cache
    /// entries deleted and its watchers dropped, the committed graph
    /// satisfies every invariant.
    #[verifier::rlimit(100)]
    #[verifier::spinoff_prover]
    proof fn lemma_remove_wf(
        self,
        pre: SceneGraph,
        id: u128,
        sn1: Map<u128, Node>,
        sd1: Map<u128, Dependencies>,
        s1: Map<u128, Frame>,
        sda: Map<u128, Dependencies>,
        rev: Seq<(u128, Dependent)>,
        origins: Seq<u128>,
        old_forward: Seq<Option<(u128, u128)>>,
    )
        requires
            pre.links_wf(),
            pre.nodes_map().contains_key(id),
            old_forward == pre.deps_map()[id].forward@,
            self.nodes_map() == sn1.remove(id),
            self.states_map() == s1.remove(id),
            self.deps_map() == sd1.remove(id),
            // staged tables as the update left them
            tables_wf(sn1, sd1),
            forward_edges_ok(sn1, sd1),
            s1.dom() =~= sn1.dom(),
            forall|n: u128| #[trigger] sn1.contains_key(n) ==> s1[n]@ == spec_eval(
                sn1[n],
                frames_view(s1),
            ),
            forall|m: u128| #[trigger] sn1.contains_key(m) <==> pre.nodes_map().contains_key(m),
            // how the staging rewrote each table
            origins.contains(id),
            forall|i: int| 0 <= i < origins.len() ==> pre.nodes_map().contains_key(
                #[trigger] origins[i],
            ),
            forall|m: u128| m != id && #[trigger] pre.nodes_map().contains_key(m)
                && !origins.contains(m) ==> sn1[m] == pre.nodes_map()[m] && sd1[m] == sda[m],
            forall|m: u128| m != id && #[trigger] origins.contains(m) ==> sn1[m]
                == pre.nodes_map()[m].without_input(id) && sd1[m].forward@ == cleared_fwd(
                pre.deps_map()[m].forward@,
                id,
            ) && sd1[m].reverse@ == sda[m].reverse@,
            sd1[id].reverse@ == rev,
            rev == sda[id].reverse@,
            forall|j: int|
                #![trigger rev[j]]
                0 <= j < rev.len() ==> (rev[j].1 matches Dependent::Node { id: d, .. }
                    ==> origins.contains(d)),
            forall|m: u128| #[trigger] pre.deps_map().contains_key(m) ==> sda[m].forward@
                == pre.deps_map()[m].forward@ && sda[m].reverse.wf(),
            forall|m: u128| #[trigger] sda.contains_key(m) <==> pre.deps_map().contains_key(m),
            forall|m: u128, k: u128|
                #![trigger sda[m].reverse.slots().contains_key(k)]
                pre.deps_map().contains_key(m) && sda[m].reverse.slots().contains_key(k)
                    ==> pre.deps_map()[m].reverse.slots().contains_key(k)
                    && sda[m].reverse.slots()[k] == pre.deps_map()[m].reverse.slots()[k],
            forall|m: u128, k: u128|
                #![trigger pre.deps_map()[m].reverse.slots().contains_key(k)]
                pre.deps_map().contains_key(m) && pre.deps_map()[m].reverse.slots().contains_key(
                    k,
                ) && !(exists|j: int|
                    0 <= j < old_forward.len() && old_forward[j] == Some((m, k)))
                    ==> sda[m].reverse.slots().contains_key(k),
            forall|j: int, m: u128, k: u128|
                #![trigger old_forward[j], sda[m].reverse.slots().contains_key(k)]
                0 <= j < old_forward.len() && old_forward[j] == Some((m, k))
                    ==> !sda[m].reverse.slots().contains_key(k),
            // which subscriptions were dropped
            forall|s: u128| #[trigger] self.subs_map().contains_key(s)
                <==> pre.subs_map().contains_key(s) && !(exists|j: int|
                0 <= j < rev.len() && (#[trigger] rev[j]).1 == (Dependent::Subscription {
                    id: s,
                })),
            forall|s: u128| #[trigger] self.subs_map().contains_key(s) ==> self.subs_map()[s]
                == pre.subs_map()[s],
        ensures
            self.links_wf(),
            forall|s: u128| #[trigger] self.subs_map().contains_key(s) ==> self.subs_map()[s].input
                != id,
    {
        assert(self.keys_consistent()) by {
            assert(self.states_map().dom() =~= self.nodes_map().dom());
            assert(self.deps_map().dom() =~= self.nodes_map().dom());
        }
        // no surviving node's forward edge targets the departing node
        assert forall|n: u128, i: int|
            self.nodes_map().contains_key(n) && 0 <= i < self.deps_map()[n].forward@.len()
                implies !((#[trigger] self.deps_map()[n].forward@[i]) matches Some(p) && p.0
            == id) by {
            if sd1[n].forward@[i] is Some && (sd1[n].forward@[i]->Some_0).0 == id {
                let k = (sd1[n].forward@[i]->Some_0).1;
                assert(sd1[n].forward@[i] == Some((id, k)));
                assert(sd1[id].reverse.slots().contains_key(k));
                crate::deps::lemma_revlist_domain(sd1[id].reverse);
                assert(sda[id].reverse.slots().contains_key(k));
                assert(pre.deps_map()[id].reverse.slots().contains_key(k));
                crate::deps::lemma_revlist_domain(pre.deps_map()[id].reverse);
                let j0 = choose|j0: int|
                    0 <= j0 < pre.deps_map()[id].reverse@.len() && (
                    #[trigger] pre.deps_map()[id].reverse@[j0]).0 == k;
                crate::deps::lemma_revlist_lookup(pre.deps_map()[id].reverse, j0);
                assert(sd1[id].reverse.slots()[k] == (Dependent::Node { id: n, index: i as u32 }));
                assert(pre.deps_map()[id].reverse.slots()[k] == sda[id].reverse.slots()[k]);
                assert(pre.deps_map()[id].reverse@[j0].1 == (Dependent::Node {
                    id: n,
                    index: i as u32,
                }));
                assert(pre.nodes_map().contains_key(n));
                assert(pre.deps_map()[n].forward@[i] == Some((id, k)));
                // so `n` is a dependent: its edge to `id` was cleared
                assert(origins.contains(n)) by {
                    crate::deps::lemma_revlist_domain(sda[id].reverse);
                    let jr = choose|jr: int|
                        0 <= jr < rev.len() && (#[trigger] rev[jr]).0 == k;
                    crate::deps::lemma_revlist_lookup(sd1[id].reverse, jr);
                    assert(rev[jr].1 == (Dependent::Node { id: n, index: i as u32 }));
                }
                if n != id {
                    assert(sd1[n].forward@ == cleared_fwd(pre.deps_map()[n].forward@, id));
                    assert(sd1[n].forward@[i] is None);
                    assert(false);
                } else {
                    assert(!self.nodes_map().contains_key(id));
                    assert(false);
                }
            }
        }
        assert(self.forward_matches()) by {
            assert forall|n: u128, i: int|
                self.nodes_map().contains_key(n) && 0 <= i < self.deps_map()[n].forward@.len()
                    implies match #[trigger] self.deps_map()[n].forward@[i] {
                Some((m, k)) => {
                    &&& self.nodes_map()[n].dep(i) == Some(m)
                    &&& self.nodes_map().contains_key(m)
                    &&& self.deps_map()[m].reverse.slots().contains_key(k)
                    &&& self.deps_map()[m].reverse.slots()[k] == (Dependent::Node {
                        id: n,
                        index: i as u32,
                    })
                },
                None => self.nodes_map()[n].dep(i) is None,
            } by {
                match sd1[n].forward@[i] {
                    Some((m, k)) => {
                        assert(m != id);
                        assert(sn1.contains_key(m));
                    },
                    None => {},
                }
            }
        }
        assert forall|m: u128, j: int|
            self.nodes_map().contains_key(m) && 0 <= j < self.deps_map()[m].reverse@.len() implies
            match (#[trigger] self.deps_map()[m].reverse@[j]).1 {
            Dependent::Node { id: n, index: i } => {
                &&& self.nodes_map().contains_key(n)
                &&& i < self.deps_map()[n].forward@.len()
                &&& self.deps_map()[n].forward@[i as int] == Some(
                    (m, self.deps_map()[m].reverse@[j].0),
                )
            },
            Dependent::Subscription { id: s } => {
                &&& self.subs_map().contains_key(s)
                &&& self.subs_map()[s].input == m
                &&& self.subs_map()[s].slot == self.deps_map()[m].reverse@[j].0
            },
        } by {
            let k = sd1[m].reverse@[j].0;
            let v = sd1[m].reverse@[j].1;
            crate::deps::lemma_revlist_lookup(sd1[m].reverse, j);
            assert(sd1[m].reverse@ == sda[m].reverse@);
            assert(sda[m].reverse.slots().contains_key(k) && sda[m].reverse.slots()[k] == v);
            assert(pre.deps_map()[m].reverse.slots().contains_key(k)
                && pre.deps_map()[m].reverse.slots()[k] == v);
            crate::deps::lemma_revlist_domain(pre.deps_map()[m].reverse);
            let j0 = choose|j0: int|
                0 <= j0 < pre.deps_map()[m].reverse@.len() && (
                #[trigger] pre.deps_map()[m].reverse@[j0]).0 == k;
            crate::deps::lemma_revlist_lookup(pre.deps_map()[m].reverse, j0);
            assert(pre.deps_map()[m].reverse@[j0] == (k, v));
            match v {
                Dependent::Node { id: n, index: i } => {
                    assert(pre.nodes_map().contains_key(n));
                    assert(pre.deps_map()[n].forward@[i as int] == Some((m, k)));
                    assert(n != id) by {
                        if n == id {
                            assert(old_forward[i as int] == Some((m, k)));
                            assert(!sda[m].reverse.slots().contains_key(k));
                            assert(false);
                        }
                    }
                    assert(self.nodes_map().contains_key(n));
                    if origins.contains(n) {
                        assert(sd1[n].forward@ == cleared_fwd(pre.deps_map()[n].forward@, id));
                        assert(sd1[n].forward@[i as int] == Some((m, k)));
                    } else {
                        assert(sd1[n] == sda[n]);
                        assert(sda[n].forward@ == pre.deps_map()[n].forward@);
                    }
                },
                Dependent::Subscription { id: s } => {
                    assert(pre.subs_map().contains_key(s));
                    assert(pre.subs_map()[s].input == m);
                    assert(pre.subs_map()[s].slot == k);
                    assert(self.subs_map().contains_key(s)) by {
                        if exists|jr: int|
                            0 <= jr < rev.len() && (#[trigger] rev[jr]).1 == (
                            Dependent::Subscription { id: s }) {
                            let jr = choose|jr: int|
                                0 <= jr < rev.len() && (#[trigger] rev[jr]).1 == (
                                Dependent::Subscription { id: s });
                            crate::deps::lemma_revlist_lookup(sd1[id].reverse, jr);
                            assert(sda[id].reverse.slots().contains_key(rev[jr].0)
                                && sda[id].reverse.slots()[rev[jr].0] == (
                            Dependent::Subscription { id: s }));
                            assert(pre.deps_map()[id].reverse.slots().contains_key(rev[jr].0));
                            crate::deps::lemma_revlist_domain(pre.deps_map()[id].reverse);
                            let jq = choose|jq: int|
                                0 <= jq < pre.deps_map()[id].reverse@.len() && (
                                #[trigger] pre.deps_map()[id].reverse@[jq]).0 == rev[jr].0;
                            crate::deps::lemma_revlist_lookup(pre.deps_map()[id].reverse, jq);
                            assert(pre.deps_map()[id].reverse@[jq].1 == (Dependent::Subscription {
                                id: s,
                            }));
                            assert(pre.subs_map()[s].input == id);
                            assert(m == id);
                            assert(!self.nodes_map().contains_key(m));
                            assert(false);
                        }
                    }
                },
            }
        }
        assert forall|s: u128| #[trigger] self.subs_map().contains_key(s) implies {
            let sub = self.subs_map()[s];
            &&& sub.id == s
            &&& self.nodes_map().contains_key(sub.input)
            &&& sub.input != s
            &&& self.deps_map()[sub.input].reverse.slots().contains_key(sub.slot)
            &&& self.deps_map()[sub.input].reverse.slots()[sub.slot] == (Dependent::Subscription {
                id: s,
            })
        } by {
            let sub = self.subs_map()[s];
            assert(pre.subs_map().contains_key(s) && pre.subs_map()[s] == sub);
            let m = sub.input;
            let k = sub.slot;
            assert(pre.deps_map()[m].reverse.slots().contains_key(k)
                && pre.deps_map()[m].reverse.slots()[k] == (Dependent::Subscription { id: s }));
            assert(m != id) by {
                if m == id {
                    crate::deps::lemma_revlist_domain(pre.deps_map()[id].reverse);
                    let j0 = choose|j0: int|
                        0 <= j0 < pre.deps_map()[id].reverse@.len() && (
                        #[trigger] pre.deps_map()[id].reverse@[j0]).0 == k;
                    crate::deps::lemma_revlist_lookup(pre.deps_map()[id].reverse, j0);
                    // the subscription watched the departing node, so its
                    // entry survived the detach pass and it was dropped
                    assert(!(exists|j: int| 0 <= j < old_forward.len() && old_forward[j] == Some(
                        (id, k),
                    ))) by {
                        if exists|j: int| 0 <= j < old_forward.len() && old_forward[j] == Some(
                            (id, k),
                        ) {
                            let j = choose|j: int|
                                0 <= j < old_forward.len() && old_forward[j] == Some((id, k));
                            assert(pre.deps_map()[id].reverse.slots()[k] == (Dependent::Node {
                                id,
                                index: j as u32,
                            }));
                            assert(false);
                        }
                    }
                    assert(sda[id].reverse.slots().contains_key(k));
                    crate::deps::lemma_revlist_domain(sda[id].reverse);
                    let jr = choose|jr: int|
                        0 <= jr < rev.len() && (#[trigger] rev[jr]).0 == k;
                    crate::deps::lemma_revlist_lookup(sd1[id].reverse, jr);
                    assert(rev[jr].1 == (Dependent::Subscription { id: s }));
                    assert(!self.subs_map().contains_key(s));
                    assert(false);
                }
            }
            assert(!(exists|j: int| 0 <= j < old_forward.len() && old_forward[j] == Some(
                (m, k),
            ))) by {
                if exists|j: int| 0 <= j < old_forward.len() && old_forward[j] == Some((m, k)) {
                    let j = choose|j: int|
                        0 <= j < old_forward.len() && old_forward[j] == Some((m, k));
                    assert(pre.deps_map()[id].forward@[j] == Some((m, k)));
                    assert(pre.deps_map()[m].reverse.slots()[k] == (Dependent::Node {
                        id,
                        index: j as u32,
                    }));
                    assert(false);
                }
            }
            assert(sda[m].reverse.slots().contains_key(k) && sda[m].reverse.slots()[k] == (
            Dependent::Subscription { id: s }));
            assert(self.deps_map()[m].reverse@ == sda[m].reverse@);
            assert(self.nodes_map().contains_key(m));
            assert(sub.input != s) by {
                assert(!pre.nodes_map().contains_key(s));
            }
        }
        assert(self.ids_disjoint());
        // every surviving frame stays exact once the departed entry is gone
        assert forall|n: u128| #[trigger] self.nodes_map().contains_key(n) implies
            self.states_map()[n]@ == spec_eval(
            self.nodes_map()[n],
            frames_view(self.states_map()),
        ) by {
            assert(s1[n]@ == spec_eval(sn1[n], frames_view(s1)));
            assert forall|i: int| 0 <= i < sn1[n].arity() && sn1[n].dep(i) is Some implies {
                let d = sn1[n].dep(i)->Some_0;
                &&& (frames_view(s1).contains_key(d) <==> frames_view(
                    self.states_map(),
                ).contains_key(d))
                &&& (frames_view(s1).contains_key(d) ==> frames_view(s1)[d] == frames_view(
                    self.states_map(),
                )[d])
            } by {
                let d = sn1[n].dep(i)->Some_0;
                assert(sd1[n].forward@.len() == sn1[n].arity());
                assert(self.deps_map()[n].forward@[i] == sd1[n].forward@[i]);
                match sd1[n].forward@[i] {
                    Some((mm, kk)) => {
                        assert(mm == d);
                        assert(d != id);
                        lemma_frames_view(s1);
                        lemma_frames_view(self.states_map());
                    },
                    None => {
                        assert(sn1[n].dep(i) is None);
                    },
                }
            }
            lemma_eval_stable(sn1[n], frames_view(s1), frames_view(self.states_map()));
            lemma_frames_view(s1);
            lemma_frames_view(self.states_map());
        }
    }

    /// Evaluation is deterministic: over acyclic edges the frame cache is
    /// a function of the node table alone, so two well-formed graphs with
    /// the same nodes hold identical frames everywhere — in particular,
    /// re-creating a graph from the same inserts reproduces every frame.
    pub proof fn lemma_states_determined(self, other: SceneGraph)
        requires
            self.wf(),
            other.wf(),
            self.nodes_map() == other.nodes_map(),
        ensures
            forall|n: u128| #[trigger] self.nodes_map().contains_key(n)
                ==> self.states_map()[n]@ == other.states_map()[n]@,
    {
        assert(self.nodes_map().dom().finite()) by {
            assert(self.nodes@.dom().finite());
        }
        assert(self.states_map().dom() == self.nodes_map().dom());
        assert(other.states_map().dom() == other.nodes_map().dom());
        lemma_states_unique(self.nodes_map(), self.states_map(), other.states_map());
    }

    /// Removing one subscription entry preserves every invariant.
    proof fn lemma_unsubscribe_wf(
        self,
        pre: SceneGraph,
        id: u128,
        input: u128,
        slot: u128,
    )
        requires
            pre.links_wf(),
            pre.subs_map().contains_key(id),
            input == pre.subs_map()[id].input,
            slot == pre.subs_map()[id].slot,
            self.nodes_map() == pre.nodes_map(),
            self.states_map() == pre.states_map(),
            self.subs_map() == pre.subs_map().remove(id),
            self.deps_map() == pre.deps_map().insert(input, self.deps_map()[input]),
            self.deps_map().contains_key(input),
            self.deps_map()[input].forward@ == pre.deps_map()[input].forward@,
            self.deps_map()[input].reverse.wf(),
            self.deps_map()[input].reverse.slots() == pre.deps_map()[input].reverse.slots().remove(
                slot,
            ),
            exists|i: int|
                0 <= i < pre.deps_map()[input].reverse@.len() && (#[trigger] pre.deps_map()[input].reverse@[i]).0
                    == slot && self.deps_map()[input].reverse@ == pre.deps_map()[input].reverse@.remove(
                    i,
                ),
        ensures
            self.links_wf(),
    {
        let removed = choose|i: int|
            0 <= i < pre.deps_map()[input].reverse@.len() && (#[trigger] pre.deps_map()[input].reverse@[i]).0
                == slot && self.deps_map()[input].reverse@ == pre.deps_map()[input].reverse@.remove(
                i,
            );
        assert(self.keys_consistent()) by {
            assert(self.deps_map().dom() =~= pre.deps_map().dom());
        }
        assert forall|n: u128| #[trigger] self.nodes_map().contains_key(n) implies self.deps_map()[n].reverse.wf()
            && self.deps_map()[n].forward@.len() == self.nodes_map()[n].arity() by {
            if n != input {
                assert(self.deps_map()[n] == pre.deps_map()[n]);
            }
        }
        assert forall|n: u128, i: int|
            self.nodes_map().contains_key(n) && 0 <= i < self.deps_map()[n].forward@.len() implies
            match #[trigger] self.deps_map()[n].forward@[i] {
            Some((m, k)) => {
                &&& self.nodes_map()[n].dep(i) == Some(m)
                &&& self.nodes_map().contains_key(m)
                &&& self.deps_map()[m].reverse.slots().contains_key(k)
                &&& self.deps_map()[m].reverse.slots()[k] == (Dependent::Node {
                    id: n,
                    index: i as u32,
                })
            },
            None => self.nodes_map()[n].dep(i) is None,
        } by {
            assert(self.deps_map()[n].forward@ == pre.deps_map()[n].forward@);
            assert(pre.deps_map()[n].forward@[i] == self.deps_map()[n].forward@[i]);
            match pre.deps_map()[n].forward@[i] {
                Some((m, k)) => {
                    if m == input {
                        assert(pre.deps_map()[m].reverse.slots()[k] == (Dependent::Node {
                            id: n,
                            index: i as u32,
                        }));
                        assert(pre.deps_map()[input].reverse.slots()[slot] == (
                        Dependent::Subscription { id }));
                        assert(k != slot);
                    }
                },
                None => {},
            }
        }
        assert forall|m: u128, j: int|
            self.nodes_map().contains_key(m) && 0 <= j < self.deps_map()[m].reverse@.len() implies
            match (#[trigger] self.deps_map()[m].reverse@[j]).1 {
            Dependent::Node { id: n, index: i } => {
                &&& self.nodes_map().contains_key(n)
                &&& i < self.deps_map()[n].forward@.len()
                &&& self.deps_map()[n].forward@[i as int] == Some(
                    (m, self.deps_map()[m].reverse@[j].0),
                )
            },
            Dependent::Subscription { id: s } => {
                &&& self.subs_map().contains_key(s)
                &&& self.subs_map()[s].input == m
                &&& self.subs_map()[s].slot == self.deps_map()[m].reverse@[j].0
            },
        } by {
            let entry = if m == input {
                let jj: int = if j < removed { j } else { j + 1 };
                assert(self.deps_map()[m].reverse@[j] == pre.deps_map()[m].reverse@[jj]);
                pre.deps_map()[m].reverse@[jj]
            } else {
                assert(self.deps_map()[m] == pre.deps_map()[m]);
                pre.deps_map()[m].reverse@[j]
            };
            match entry.1 {
                Dependent::Node { id: n, index: i } => {
                    assert(self.deps_map()[n].forward@ == pre.deps_map()[n].forward@);
                },
                Dependent::Subscription { id: s } => {
                    if s == id {
                        // the dropped subscription owned exactly the removed
                        // entry, so it cannot still appear
                        if m == input {
                            let jj: int = if j < removed { j } else { j + 1 };
                            assert(pre.deps_map()[input].reverse@[jj].0 == pre.subs_map()[id].slot);
                            crate::deps::lemma_revlist_lookup(pre.deps_map()[input].reverse, jj);
                            crate::deps::lemma_revlist_lookup(
                                pre.deps_map()[input].reverse,
                                removed,
                            );
                            assert(jj != removed);
                            assert(false);
                        } else {
                            assert(pre.subs_map()[s].input == m);
                            assert(false);
                        }
                    }
                },
            }
        }
        assert forall|s: u128| #[trigger] self.subs_map().contains_key(s) implies {
            let sub = self.subs_map()[s];
            &&& sub.id == s
            &&& self.nodes_map().contains_key(sub.input)
            &&& sub.input != s
            &&& self.deps_map()[sub.input].reverse.slots().contains_key(sub.slot)
            &&& self.deps_map()[sub.input].reverse.slots()[sub.slot] == (Dependent::Subscription {
                id: s,
            })
        } by {
            let sub = self.subs_map()[s];
            assert(pre.subs_map().contains_key(s) && pre.subs_map()[s] == sub);
            if sub.input == input {
                assert(pre.deps_map()[input].reverse.slots()[sub.slot] == (
                Dependent::Subscription { id: s }));
                assert(pre.deps_map()[input].reverse.slots()[slot] == (Dependent::Subscription {
                    id,
                }));
                assert(sub.slot != slot);
            } else {
                assert(self.deps_map()[sub.input] == pre.deps_map()[sub.input]);
            }
        }
    }
}


/// Subscribing and then unsubscribing leaves no trace: the subscription
/// registry and the watched node's reverse-dependency list both return to
/// exactly their earlier state, and no other node's edges were touched at
/// any point. `g0` is the graph before `subscribe` handed out `sid`, `g1`
/// the graph after it, and `g2` the graph after `unsubscribe(sid)`; the
/// premises are exactly what the two calls' contracts state.
pub proof fn lemma_subscribe_roundtrip(
    g0: SceneGraph,
    g1: SceneGraph,
    g2: SceneGraph,
    sid: u128,
    input: u128,
)
    requires
        g0.wf(),
        g1.wf(),
        g2.wf(),
        // what a successful subscribe(input) == Ok(sid) states
        g0.nodes_map().contains_key(input),
        !g0.subs_map().contains_key(sid),
        g1.subs_map().dom() == g0.subs_map().dom().insert(sid),
        forall|s: u128| s != sid && #[trigger] g0.subs_map().contains_key(s)
            ==> g1.subs_map()[s] == g0.subs_map()[s],
        g1.subs_map()[sid].id == sid,
        g1.subs_map()[sid].input == input,
        g1.nodes_map() == g0.nodes_map(),
        g1.deps_map().dom() == g0.deps_map().dom(),
        forall|n: u128| n != input && #[trigger] g0.deps_map().contains_key(n)
            ==> g1.deps_map()[n] == g0.deps_map()[n],
        g1.deps_map()[input].reverse@ == g0.deps_map()[input].reverse@.push(
            (g1.subs_map()[sid].slot, Dependent::Subscription { id: sid }),
        ),
        // what the following unsubscribe(sid) == Ok(()) states
        g2.subs_map() == g1.subs_map().remove(sid),
        g2.deps_map().dom() == g1.deps_map().dom(),
        forall|n: u128| n != input && #[trigger] g1.deps_map().contains_key(n)
            ==> g2.deps_map()[n] == g1.deps_map()[n],
        exists|i: int|
            0 <= i < g1.deps_map()[input].reverse@.len() && (
            #[trigger] g1.deps_map()[input].reverse@[i]).0 == g1.subs_map()[sid].slot
                && g2.deps_map()[input].reverse@ == g1.deps_map()[input].reverse@.remove(i),
    ensures
        g2.subs_map() =~= g0.subs_map(),
        g2.deps_map()[input].reverse@ == g0.deps_map()[input].reverse@,
        forall|n: u128| n != input && #[trigger] g0.deps_map().contains_key(n)
            ==> g2.deps_map()[n] == g0.deps_map()[n],
{
    let slot = g1.subs_map()[sid].slot;
    let rev0 = g0.deps_map()[input].reverse@;
    let rev1 = g1.deps_map()[input].reverse@;
    let i = choose|i: int|
        0 <= i < rev1.len() && (#[trigger] rev1[i]).0 == slot && g2.deps_map()[input].reverse@
            == rev1.remove(i);
    // the entry under the fresh slot is the one the subscribe pushed: the
    // reverse list never carries one key twice
    assert(g1.nodes_map().contains_key(input));
    assert(g1.deps_map()[input].reverse.wf());
    assert(rev1[rev1.len() - 1].0 == slot);
    assert(i == rev1.len() - 1);
    assert(rev1.remove(rev1.len() - 1) =~= rev0);
}

/// A depth assignment witnessing that the input edges of `nodes` run
/// strictly downhill: every bound input is strictly shallower than the
/// node that reads it.
pub open spec fn edges_increase(nodes: Map<u128, Node>, depth: Map<u128, int>) -> bool {
    forall|v: u128, i: int|
        #![trigger nodes[v].dep(i)]
        nodes.contains_key(v) && 0 <= i < nodes[v].arity() && nodes[v].dep(i) is Some
            ==> depth[nodes[v].dep(i)->Some_0] < depth[v]
}

/// Whether the input edges of `nodes` form a directed acyclic graph,
/// witnessed by a depth assignment in the standard way.
pub open spec fn acyclic(nodes: Map<u128, Node>) -> bool {
    exists|depth: Map<u128, int>| edges_increase(nodes, depth)
}

/// A nonempty sequence has an entry of minimal depth.
proof fn lemma_min_depth_index(s: Seq<u128>, depth: Map<u128, int>) -> (m: int)
    requires
        s.len() > 0,
    ensures
        0 <= m < s.len(),
        forall|j: int| 0 <= j < s.len() ==> depth[s[m]] <= depth[#[trigger] s[j]],
    decreases s.len(),
{
    if s.len() == 1 {
        0
    } else {
        let dl = s.drop_last();
        let m0 = lemma_min_depth_index(dl, depth);
        if depth[s.last()] < depth[dl[m0]] {
            let m = s.len() - 1;
            assert forall|j: int| 0 <= j < s.len() implies depth[s[m]] <= depth[#[trigger] s[j]] by {
                if j < s.len() - 1 {
                    assert(s[j] == dl[j]);
                    assert(depth[dl[m0]] <= depth[dl[j]]);
                }
            }
            m
        } else {
            assert(s[m0] == dl[m0]);
            assert forall|j: int| 0 <= j < s.len() implies depth[s[m0]] <= depth[#[trigger] s[j]] by {
                if j < s.len() - 1 {
                    assert(s[j] == dl[j]);
                }
            }
            m0
        }
    }
}

/// The staged node and edge tables agree: one shared key set, every value
/// well formed, and each node's forward list as long as its arity.
pub open spec fn tables_wf(nodes: Map<u128, Node>, deps: Map<u128, Dependencies>) -> bool {
    &&& deps.dom() == nodes.dom()
    &&& forall|n: u128| #[trigger] nodes.contains_key(n) ==> nodes[n].wf()
        && deps[n].reverse.wf() && deps[n].forward@.len() == nodes[n].arity()
}

/// Every staged forward edge mirrors the node's input slot and holds a live
/// handle into the upstream's reverse list.
pub open spec fn forward_edges_ok(nodes: Map<u128, Node>, deps: Map<u128, Dependencies>) -> bool {
    forall|n: u128, i: int|
        #![trigger deps[n].forward@[i]]
        nodes.contains_key(n) && 0 <= i < deps[n].forward@.len() ==> match deps[n].forward@[i] {
            Some((m, k)) => {
                &&& nodes[n].dep(i) == Some(m)
                &&& nodes.contains_key(m)
                &&& deps[m].reverse.slots().contains_key(k)
                &&& deps[m].reverse.slots()[k] == (Dependent::Node { id: n, index: i as u32 })
            },
            None => nodes[n].dep(i) is None,
        }
}

/// Every staged reverse entry that names a node names an existing one.
pub open spec fn reverse_nodes_ok(nodes: Map<u128, Node>, deps: Map<u128, Dependencies>) -> bool {
    forall|m: u128, j: int|
        #![trigger deps[m].reverse@[j]]
        nodes.contains_key(m) && 0 <= j < deps[m].reverse@.len()
            ==> (deps[m].reverse@[j].1 matches Dependent::Node { id: n, .. }
            ==> nodes.contains_key(n))
}

/// A node's evaluation depends only on the states of its own inputs.
proof fn lemma_eval_stable(node: Node, s1: Map<u128, Seq<u8>>, s2: Map<u128, Seq<u8>>)
    requires
        forall|i: int| 0 <= i < node.arity() && node.dep(i) is Some ==> {
            let d = node.dep(i)->Some_0;
            &&& (s1.contains_key(d) <==> s2.contains_key(d))
            &&& (s1.contains_key(d) ==> s1[d] == s2[d])
        },
    ensures
        spec_eval(node, s1) == spec_eval(node, s2),
{
    assert(node.arity() > 0 ==> crate::node::operand(s1, node.dep(0)) == crate::node::operand(
        s2,
        node.dep(0),
    ));
    assert(node.arity() > 1 ==> crate::node::operand(s1, node.dep(1)) == crate::node::operand(
        s2,
        node.dep(1),
    ));
}

/// The frame table and its byte view share a domain and agree pointwise.
proof fn lemma_frames_view(m: Map<u128, Frame>)
    ensures
        forall|k: u128| #[trigger] frames_view(m).contains_key(k) <==> m.contains_key(k),
        forall|k: u128| #[trigger] m.contains_key(k) ==> frames_view(m)[k] == m[k]@,
{
}

/// A duplicate-free sequence over a finite domain is no longer than it.
proof fn lemma_distinct_subset_len(s: Seq<u128>, dom: Set<u128>)
    requires
        s.no_duplicates(),
        dom.finite(),
        forall|i: int| 0 <= i < s.len() ==> dom.contains(#[trigger] s[i]),
    ensures
        s.len() <= dom.len(),
{
    broadcast use vstd::seq_lib::seq_to_set_is_finite;

    s.unique_seq_to_set();
    assert forall|x: u128| s.to_set().contains(x) implies dom.contains(x) by {
        let i = choose|i: int| 0 <= i < s.len() && s[i] == x;
        assert(dom.contains(s[i]));
    }
    vstd::set_lib::lemma_len_subset(s.to_set(), dom);
}

/// Whether the vector holds `x`.
fn vec_contains(v: &Vec<u128>, x: u128) -> (r: bool)
    ensures
        r == v@.contains(x),
{
    for i in 0..v.len()
        invariant
            forall|j: int| 0 <= j < i ==> v@[j] != x,
    {
        if v[i] == x {
            return true;
        }
    }
    false
}

/// Whether every input of `node` that still awaits re-evaluation has been
/// dealt with: ready means no input is listed in `pending`.
fn node_ready(node: &Node, pending: &Vec<u128>) -> (r: bool)
    ensures
        r <==> forall|i: int| 0 <= i < node.arity() && node.dep(i) is Some
            ==> !pending@.contains(node.dep(i)->Some_0),
{
    let deps = node.dependencies();
    for i in 0..deps.len()
        invariant
            deps@.len() == node.arity(),
            forall|j: int| 0 <= j < deps@.len() ==> deps@[j] == node.dep(j),
            forall|j: int| 0 <= j < i && node.dep(j) is Some ==> !pending@.contains(
                node.dep(j)->Some_0,
            ),
    {
        match deps[i] {
            Some(d) => {
                if vec_contains(pending, d) {
                    proof {
                        assert(node.dep(i as int) is Some && pending@.contains(
                            node.dep(i as int)->Some_0,
                        ));
                    }
                    return false;
                }
            },
            None => {},
        }
    }
    true
}

/// Creating a fresh node and at once deleting it restores the node table
/// exactly: no other node can have depended on the newcomer beforehand, so
/// unlinking it is a no-op everywhere. `g0` is the graph before the
/// `insert` of the fresh `id`, `g1` the graph after it, and `g2` the graph
/// after `remove(id)`; the premises are what the two calls' contracts
/// state.
pub proof fn lemma_insert_remove_roundtrip(
    g0: SceneGraph,
    g1: SceneGraph,
    g2: SceneGraph,
    id: u128,
    node: Node,
)
    requires
        g0.wf(),
        !g0.nodes_map().contains_key(id),
        // what the successful insert states
        g1.nodes_map() == g0.nodes_map().insert(id, node),
        // what the successful remove states
        g2.nodes_map().dom() == g1.nodes_map().dom().remove(id),
        forall|m: u128| m != id && #[trigger] g1.nodes_map().contains_key(m)
            ==> g2.nodes_map()[m] == g1.nodes_map()[m].without_input(id),
    ensures
        g2.nodes_map().dom() =~= g0.nodes_map().dom(),
        forall|m: u128| #[trigger] g0.nodes_map().contains_key(m) ==> g2.nodes_map()[m]
            == g0.nodes_map()[m],
{
    assert forall|m: u128| #[trigger] g0.nodes_map().contains_key(m) implies g2.nodes_map()[m]
        == g0.nodes_map()[m] by {
        assert(m != id);
        assert(g1.nodes_map().contains_key(m));
        assert(g1.nodes_map()[m] == g0.nodes_map()[m]);
        assert(g2.nodes_map()[m] == g1.nodes_map()[m].without_input(id));
        assert forall|i: int| 0 <= i < g0.nodes_map()[m].arity() implies g0.nodes_map()[m].dep(i)
            != Some(id) by {
            if g0.nodes_map()[m].dep(i) == Some(id) {
                // a bound input always names an existing node, and `id`
                // did not exist yet
                assert(g0.deps_map()[m].forward@.len() == g0.nodes_map()[m].arity());
                match g0.deps_map()[m].forward@[i] {
                    Some((mm, kk)) => {
                        assert(mm == id);
                        assert(g0.nodes_map().contains_key(id));
                        assert(false);
                    },
                    None => {
                        assert(g0.nodes_map()[m].dep(i) is None);
                        assert(false);
                    },
                }
            }
        }
        g0.nodes_map()[m].lemma_without_absent_input(id);
    }
}

/// Repeating an `insert` with identical inputs yields identical results:
/// on two graphs that hold the same nodes, neither with `id` taken by a
/// subscription, `insert(id, node)` reaches the same verdict, and on
/// success the two final node tables are equal and the two final frame
/// caches agree byte for byte. `ga0`/`gb0` are the graphs before the two
/// calls, `ga1`/`gb1` the graphs after them, `ra`/`rb` what they returned;
/// the premises are what `insert`'s contract states.
pub proof fn lemma_insert_deterministic(
    ga0: SceneGraph,
    ga1: SceneGraph,
    ra: Result<(), Error>,
    gb0: SceneGraph,
    gb1: SceneGraph,
    rb: Result<(), Error>,
    id: u128,
    node: Node,
)
    requires
        ga1.wf(),
        gb1.wf(),
        ga0.nodes_map() == gb0.nodes_map(),
        !ga0.subs_map().contains_key(id),
        !gb0.subs_map().contains_key(id),
        // what each call's contract states
        ra is Ok <==> (!ga0.subs_map().contains_key(id) && (forall|i: int|
            0 <= i < node.arity() && node.dep(i) is Some ==> ga0.nodes_map().contains_key(
                #[trigger] node.dep(i)->Some_0,
            )) && acyclic(ga0.nodes_map().insert(id, node))),
        rb is Ok <==> (!gb0.subs_map().contains_key(id) && (forall|i: int|
            0 <= i < node.arity() && node.dep(i) is Some ==> gb0.nodes_map().contains_key(
                #[trigger] node.dep(i)->Some_0,
            )) && acyclic(gb0.nodes_map().insert(id, node))),
        ra is Ok ==> ga1.nodes_map() == ga0.nodes_map().insert(id, node),
        rb is Ok ==> gb1.nodes_map() == gb0.nodes_map().insert(id, node),
    ensures
        ra is Ok <==> rb is Ok,
        ra is Ok ==> ga1.nodes_map() == gb1.nodes_map(),
        ra is Ok ==> forall|n: u128| #[trigger] ga1.nodes_map().contains_key(n)
            ==> ga1.states_map()[n]@ == gb1.states_map()[n]@,
{
    if ra is Ok {
        ga1.lemma_states_determined(gb1);
    }
}

/// A finite, nonempty set has an element of minimal depth.
proof fn lemma_set_min_depth(s: Set<u128>, depth: Map<u128, int>) -> (m: u128)
    requires
        s.finite(),
        s.len() > 0,
    ensures
        s.contains(m),
        forall|x: u128| #[trigger] s.contains(x) ==> depth[m] <= depth[x],
    decreases s.len(),
{
    let x = s.choose();
    assert(s.contains(x));
    let rest = s.remove(x);
    if rest.len() == 0 {
        assert forall|y: u128| #[trigger] s.contains(y) implies depth[x] <= depth[y] by {
            if y != x {
                assert(rest.contains(y));
                assert(rest.len() > 0) by {
                    if rest.len() == 0 {
                        assert(rest =~= Set::<u128>::empty());
                    }
                }
            }
        }
        x
    } else {
        let m0 = lemma_set_min_depth(rest, depth);
        if depth[x] < depth[m0] {
            assert forall|y: u128| #[trigger] s.contains(y) implies depth[x] <= depth[y] by {
                if y != x {
                    assert(rest.contains(y));
                }
            }
            x
        } else {
            assert forall|y: u128| #[trigger] s.contains(y) implies depth[m0] <= depth[y] by {
                if y != x {
                    assert(rest.contains(y));
                }
            }
            m0
        }
    }
}

/// A finite, nonempty set has an element of maximal depth.
proof fn lemma_set_max_depth(s: Set<u128>, depth: Map<u128, int>) -> (m: u128)
    requires
        s.finite(),
        s.len() > 0,
    ensures
        s.contains(m),
        forall|x: u128| #[trigger] s.contains(x) ==> depth[x] <= depth[m],
    decreases s.len(),
{
    let x = s.choose();
    assert(s.contains(x));
    let rest = s.remove(x);
    if rest.len() == 0 {
        assert forall|y: u128| #[trigger] s.contains(y) implies depth[y] <= depth[x] by {
            if y != x {
                assert(rest.contains(y));
                assert(rest.len() > 0) by {
                    if rest.len() == 0 {
                        assert(rest =~= Set::<u128>::empty());
                    }
                }
            }
        }
        x
    } else {
        let m0 = lemma_set_max_depth(rest, depth);
        if depth[x] > depth[m0] {
            assert forall|y: u128| #[trigger] s.contains(y) implies depth[y] <= depth[x] by {
                if y != x {
                    assert(rest.contains(y));
                }
            }
            x
        } else {
            assert forall|y: u128| #[trigger] s.contains(y) implies depth[y] <= depth[m0] by {
                if y != x {
                    assert(rest.contains(y));
                }
            }
            m0
        }
    }
}

/// When the affected set is closed under dependents, the walk settled each
/// affected node only after its affected inputs, and every other node kept
/// its old record, the staged edges admit a depth witness — the old depths
/// below, the settling order on top — and so form no cycle.
#[verifier::rlimit(60)]
#[verifier::spinoff_prover]
proof fn lemma_order_witnesses_acyclic(
    nodes_m: Map<u128, Node>,
    deps_m: Map<u128, Dependencies>,
    base: Map<u128, Node>,
    aff: Seq<u128>,
    order: Seq<u128>,
)
    requires
        acyclic(base),
        nodes_m.dom().finite(),
        tables_wf(nodes_m, deps_m),
        forward_edges_ok(nodes_m, deps_m),
        forall|n: u128| nodes_m.contains_key(n) && !aff.contains(n) ==> base.contains_key(n)
            && nodes_m[n] == base[n],
        forall|i: int| 0 <= i < aff.len() ==> nodes_m.contains_key(#[trigger] aff[i]),
        forall|i: int, j: int|
            #![trigger deps_m[aff[i]].reverse@[j]]
            0 <= i < aff.len() && 0 <= j < deps_m[aff[i]].reverse@.len() ==> (
            deps_m[aff[i]].reverse@[j].1 matches Dependent::Node { id: d, .. } ==> aff.contains(
                d,
            )),
        order.no_duplicates(),
        forall|x: u128| aff.contains(x) <==> order.contains(x),
        forall|k: int, i: int|
            #![trigger nodes_m[order[k]].dep(i)]
            0 <= k < order.len() && 0 <= i < nodes_m[order[k]].arity() && nodes_m[order[k]].dep(
                i,
            ) is Some && aff.contains(nodes_m[order[k]].dep(i)->Some_0) ==> exists|j: int|
                0 <= j < k && order[j] == nodes_m[order[k]].dep(i)->Some_0,
    ensures
        acyclic(nodes_m),
{
    let depth0 = choose|d: Map<u128, int>| edges_increase(base, d);
    let bound: int = if nodes_m.dom().len() > 0 {
        let mx = lemma_set_max_depth(nodes_m.dom(), depth0);
        depth0[mx]
    } else {
        0
    };
    let newdepth = Map::<u128, int>::total(
        |v: u128|
            if order.contains(v) {
                bound + 1 + order.index_of(v)
            } else {
                depth0[v]
            },
    );
    assert forall|v: u128, i: int|
        nodes_m.contains_key(v) && 0 <= i < nodes_m[v].arity() && #[trigger] nodes_m[v].dep(
            i,
        ) is Some implies newdepth[nodes_m[v].dep(i)->Some_0] < newdepth[v] by {
        let d = nodes_m[v].dep(i)->Some_0;
        assert(deps_m[v].forward@.len() == nodes_m[v].arity());
        let handle = deps_m[v].forward@[i];
        assert(nodes_m.contains_key(d) && handle == Some((d, handle->Some_0.1))) by {
            match handle {
                Some((m, k)) => {
                    assert(nodes_m[v].dep(i) == Some(m));
                },
                None => {
                    assert(nodes_m[v].dep(i) is None);
                },
            }
        }
        if aff.contains(v) {
            assert(order.contains(v));
            let k0 = order.index_of(v);
            assert(0 <= k0 < order.len() && order[k0] == v);
            assert(newdepth[v] == bound + 1 + k0);
            if aff.contains(d) {
                assert(nodes_m[order[k0]].dep(i) == Some(d));
                let j = choose|j: int| 0 <= j < k0 && order[j] == d;
                let kd = order.index_of(d);
                assert(order.contains(d));
                assert(0 <= kd < order.len() && order[kd] == d);
                assert(kd == j);
                assert(newdepth[d] == bound + 1 + j);
            } else {
                assert(newdepth[d] == depth0[d]);
                assert(nodes_m.dom().contains(d));
                assert(nodes_m.dom().len() > 0) by {
                    if nodes_m.dom().len() == 0 {
                        assert(nodes_m.dom() =~= Set::<u128>::empty());
                    }
                }
                assert(depth0[d] <= bound);
            }
        } else {
            assert(base.contains_key(v) && nodes_m[v] == base[v]);
            assert(edges_increase(base, depth0));
            assert(depth0[d] < depth0[v]);
            assert(!aff.contains(d)) by {
                if aff.contains(d) {
                    let ai = choose|ai: int| 0 <= ai < aff.len() && aff[ai] == d;
                    let k = handle->Some_0.1;
                    assert(deps_m[d].reverse.slots().contains_key(k)
                        && deps_m[d].reverse.slots()[k] == (Dependent::Node {
                        id: v,
                        index: i as u32,
                    }));
                    assert(deps_m[d].reverse.wf());
                    crate::deps::lemma_revlist_domain(deps_m[d].reverse);
                    let jr = choose|jr: int|
                        0 <= jr < deps_m[d].reverse@.len() && (
                        #[trigger] deps_m[d].reverse@[jr]).0 == k;
                    crate::deps::lemma_revlist_lookup(deps_m[d].reverse, jr);
                    assert(deps_m[aff[ai]].reverse@[jr].1 == (Dependent::Node {
                        id: v,
                        index: i as u32,
                    }));
                    assert(aff.contains(v));
                    assert(false);
                }
            }
            assert(!order.contains(v) && !order.contains(d));
            assert(newdepth[v] == depth0[v] && newdepth[d] == depth0[d]);
        }
    }
    assert(edges_increase(nodes_m, newdepth));
}

/// Over acyclic edges the exact frame cache is unique: any two caches that
/// both satisfy the fixpoint equation for the same node table agree
/// everywhere. Taking the deepest disagreement first, all of its inputs
/// already agree, so it cannot disagree either.
proof fn lemma_states_unique(nodes: Map<u128, Node>, s1: Map<u128, Frame>, s2: Map<u128, Frame>)
    requires
        acyclic(nodes),
        nodes.dom().finite(),
        s1.dom() == nodes.dom(),
        s2.dom() == nodes.dom(),
        forall|n: u128| #[trigger] nodes.contains_key(n) ==> s1[n]@ == spec_eval(
            nodes[n],
            frames_view(s1),
        ),
        forall|n: u128| #[trigger] nodes.contains_key(n) ==> s2[n]@ == spec_eval(
            nodes[n],
            frames_view(s2),
        ),
    ensures
        forall|n: u128| #[trigger] nodes.contains_key(n) ==> s1[n]@ == s2[n]@,
{
    let depth = choose|depth: Map<u128, int>| edges_increase(nodes, depth);
    let disagree = Set::new(|n: u128| nodes.contains_key(n) && s1[n]@ != s2[n]@);
    assert(disagree.subset_of(nodes.dom()));
    vstd::set_lib::lemma_len_subset(disagree, nodes.dom());
    if disagree.len() > 0 {
        let n = lemma_set_min_depth(disagree, depth);
        assert(nodes.contains_key(n));
        lemma_frames_view(s1);
        lemma_frames_view(s2);
        assert forall|i: int| 0 <= i < nodes[n].arity() && nodes[n].dep(i) is Some implies {
            let d = nodes[n].dep(i)->Some_0;
            &&& (frames_view(s1).contains_key(d) <==> frames_view(s2).contains_key(d))
            &&& (frames_view(s1).contains_key(d) ==> frames_view(s1)[d] == frames_view(s2)[d])
        } by {
            let d = nodes[n].dep(i)->Some_0;
            if nodes.contains_key(d) {
                assert(depth[d] < depth[n]);
                if disagree.contains(d) {
                    assert(depth[n] <= depth[d]);
                    assert(false);
                }
                assert(s1[d]@ == s2[d]@);
            }
        }
        lemma_eval_stable(nodes[n], frames_view(s1), frames_view(s2));
        assert(s1[n]@ == s2[n]@);
        assert(disagree.contains(n));
        assert(false);
    }
    assert forall|n: u128| #[trigger] nodes.contains_key(n) implies s1[n]@ == s2[n]@ by {
        if s1[n]@ != s2[n]@ {
            assert(disagree.contains(n));
            assert(disagree.len() > 0) by {
                if disagree.len() == 0 {
                    assert(disagree =~= Set::<u128>::empty());
                }
            }
        }
    }
}

/// Whether some input of `n` still waits in `pending`.
pub open spec fn blocked(nodes_m: Map<u128, Node>, pending: Seq<u128>, n: u128) -> bool {
    exists|i: int|
        0 <= i < nodes_m[n].arity() && nodes_m[n].dep(i) is Some && pending.contains(
            nodes_m[n].dep(i)->Some_0,
        )
}

/// When every waiting node still reads some other waiting node, the edges
/// among them close a cycle: no downhill depth assignment can exist.
#[verifier::rlimit(100)]
#[verifier::spinoff_prover]
proof fn lemma_stuck_means_cycle(nodes_m: Map<u128, Node>, pending: Seq<u128>)
    requires
        pending.len() > 0,
        forall|jj: int| 0 <= jj < pending.len() ==> nodes_m.contains_key(#[trigger] pending[jj])
            && blocked(nodes_m, pending, pending[jj]),
    ensures
        !acyclic(nodes_m),
{
    if acyclic(nodes_m) {
        let depth = choose|depth: Map<u128, int>| edges_increase(nodes_m, depth);
        let mi = lemma_min_depth_index(pending, depth);
        let n = pending[mi];
        assert(nodes_m.contains_key(pending[mi]) && blocked(nodes_m, pending, pending[mi]));
        let i = choose|i: int|
            0 <= i < nodes_m[n].arity() && nodes_m[n].dep(i) is Some && pending.contains(
                nodes_m[n].dep(i)->Some_0,
            );
        let d = nodes_m[n].dep(i)->Some_0;
        assert(nodes_m[n].dep(i) is Some);
        assert(nodes_m.contains_key(n));
        assert(depth[d] < depth[n]);
        let dj = choose|dj: int| 0 <= dj < pending.len() && pending[dj] == d;
        assert(depth[pending[mi]] <= depth[pending[dj]]);
        assert(false);
    }
}

/// The first waiting node all of whose waiting inputs are settled, if any.
#[verifier::loop_isolation(false)]
fn find_ready(
    nodes_base: &HashMap<u128, Node>,
    nodes_tx: &Transaction<Node>,
    pending: &Vec<u128>,
) -> (r: Option<usize>)
    requires
        nodes_tx.wf(),
        forall|i: int| 0 <= i < pending@.len() ==> nodes_tx.staged(nodes_base@).contains_key(
            #[trigger] pending@[i],
        ),
    ensures
        match r {
            Some(f) => f < pending@.len() && forall|i: int|
                0 <= i < nodes_tx.staged(nodes_base@)[pending@[f as int]].arity()
                    && nodes_tx.staged(nodes_base@)[pending@[f as int]].dep(i) is Some
                    ==> !pending@.contains(
                    nodes_tx.staged(nodes_base@)[pending@[f as int]].dep(i)->Some_0,
                ),
            None => forall|jj: int| 0 <= jj < pending@.len() ==> blocked(
                nodes_tx.staged(nodes_base@),
                pending@,
                #[trigger] pending@[jj],
            ),
        },
{
    let ghost nodes_m = nodes_tx.staged(nodes_base@);
    for j in 0..pending.len()
        invariant
            forall|jj: int| 0 <= jj < j ==> blocked(nodes_m, pending@, #[trigger] pending@[jj]),
    {
        let cand = pending[j];
        let node = match nodes_tx.get(nodes_base, cand) {
            Some(node) => *node,
            None => {
                proof {
                    assert(nodes_m.contains_key(cand));
                    assert(false);
                }
                return None;
            },
        };
        if node_ready(&node, pending) {
            return Some(j);
        }
        proof {
            assert(node == nodes_m[cand]);
            assert(!(forall|i: int|
                0 <= i < node.arity() && node.dep(i) is Some ==> !pending@.contains(
                    node.dep(i)->Some_0,
                )));
            assert(pending@[j as int] == cand);
            assert(exists|i: int|
                0 <= i < node.arity() && node.dep(i) is Some && pending@.contains(
                    node.dep(i)->Some_0,
                ));
            let wi = choose|i: int|
                0 <= i < node.arity() && node.dep(i) is Some && pending@.contains(
                    node.dep(i)->Some_0,
                );
            assert(0 <= wi < nodes_m[cand].arity() && nodes_m[cand].dep(wi) is Some
                && pending@.contains(nodes_m[cand].dep(wi)->Some_0));
            assert(blocked(nodes_m, pending@, cand));
        }
    }
    None
}

/// Re-evaluates every node affected by a change at the `origins` over the
/// staged tables, each affected node once and only after all of its
/// affected inputs, and collects the subscriptions to notify in the order
/// the walk found them. Fails with `Cycle` exactly when the affected nodes
/// admit no such order: the members of a staged dependency cycle keep each
/// other permanently unready. After a failure the state transaction's
/// staged writes are meaningless, and the caller drops all three
/// transactions unseen.
#[verifier::loop_isolation(false)]
#[verifier::rlimit(100)]
#[verifier::spinoff_prover]
fn update(
    origins: &Vec<u128>,
    nodes_base: &HashMap<u128, Node>,
    nodes_tx: &Transaction<Node>,
    states_base: &HashMap<u128, Frame>,
    states_tx: &mut Transaction<Frame>,
    deps_base: &HashMap<u128, Dependencies>,
    deps_tx: &Transaction<Dependencies>,
) -> (r: Result<Vec<u128>, Error>)
    requires
        nodes_tx.wf(),
        old(states_tx).wf(),
        deps_tx.wf(),
        tables_wf(nodes_tx.staged(nodes_base@), deps_tx.staged(deps_base@)),
        forward_edges_ok(nodes_tx.staged(nodes_base@), deps_tx.staged(deps_base@)),
        reverse_nodes_ok(nodes_tx.staged(nodes_base@), deps_tx.staged(deps_base@)),
        acyclic(nodes_base@),
        forall|n: u128| #[trigger] nodes_tx.staged(nodes_base@).contains_key(n)
            && !origins@.contains(n) ==> nodes_base@.contains_key(n) && nodes_tx.staged(
            nodes_base@,
        )[n] == nodes_base@[n],
        forall|i: int| 0 <= i < origins@.len() ==> nodes_tx.staged(nodes_base@).contains_key(
            #[trigger] origins@[i],
        ),
        forall|n: u128| #[trigger] nodes_tx.staged(nodes_base@).contains_key(n)
            && !origins@.contains(n) ==> old(states_tx).staged(states_base@).contains_key(n),
        forall|n: u128| #[trigger] old(states_tx).staged(states_base@).contains_key(n)
            ==> nodes_tx.staged(nodes_base@).contains_key(n),
        forall|n: u128| #[trigger] old(states_tx).staged(states_base@).contains_key(n)
            && !origins@.contains(n) ==> old(states_tx).staged(states_base@)[n]@ == spec_eval(
            nodes_tx.staged(nodes_base@)[n],
            frames_view(old(states_tx).staged(states_base@)),
        ),
    ensures
        final(states_tx).wf(),
        match r {
            Ok(ups) => {
                &&& final(states_tx).staged(states_base@).dom() =~= nodes_tx.staged(
                    nodes_base@,
                ).dom()
                &&& forall|n: u128| #[trigger] nodes_tx.staged(nodes_base@).contains_key(n)
                    ==> final(states_tx).staged(states_base@)[n]@ == spec_eval(
                    nodes_tx.staged(nodes_base@)[n],
                    frames_view(final(states_tx).staged(states_base@)),
                )
                &&& acyclic(nodes_tx.staged(nodes_base@))
                &&& forall|n: u128, j: int|
                    #![trigger deps_tx.staged(deps_base@)[n].reverse@[j]]
                    nodes_tx.staged(nodes_base@).contains_key(n) && 0 <= j < deps_tx.staged(
                        deps_base@,
                    )[n].reverse@.len() && !(old(states_tx).staged(states_base@).contains_key(n)
                        && final(states_tx).staged(states_base@)[n] == old(states_tx).staged(
                        states_base@,
                    )[n]) ==> (deps_tx.staged(deps_base@)[n].reverse@[j].1 matches
                        Dependent::Subscription { id: s } ==> ups@.contains(s))
            },
            Err(e) => e == Error::Cycle && !acyclic(nodes_tx.staged(nodes_base@)),
        },
{
    let ghost nodes_m = nodes_tx.staged(nodes_base@);
    let ghost deps_m = deps_tx.staged(deps_base@);
    let ghost states0 = old(states_tx).staged(states_base@);
    proof {
        lemma_frames_view(states0);
        nodes_tx.lemma_overlay_finite();
        assert(nodes_m.dom() =~= nodes_base@.dom().union(nodes_tx.overlay_map().dom()));
        assert(nodes_m.dom().finite());
    }

    // Phase one: the affected closure, breadth first. Every dependent of an
    // affected node is affected; a dependent edge back into the origin is a
    // cycle at once.
    let mut affected: Vec<u128> = Vec::new();
    let mut updates: Vec<u128> = Vec::new();
    let mut qhead: usize = 0;
    for oi in 0..origins.len()
        invariant
            *states_tx == *old(states_tx),
            affected@.no_duplicates(),
            affected@.len() <= nodes_m.dom().len(),
            forall|i: int| 0 <= i < affected@.len() ==> nodes_m.contains_key(
                #[trigger] affected@[i],
            ),
            forall|i: int| 0 <= i < oi ==> affected@.contains(#[trigger] origins@[i]),
    {
        let o = origins[oi];
        let ghost before = affected@;
        if !vec_contains(&affected, o) {
            proof {
                assert(affected@.push(o).no_duplicates());
                lemma_distinct_subset_len(affected@.push(o), nodes_m.dom());
            }
            affected.push(o);
        }
        proof {
            assert forall|i: int| 0 <= i < oi + 1 implies affected@.contains(
                #[trigger] origins@[i],
            ) by {
                if i < oi {
                    let w = choose|w: int| 0 <= w < before.len() && before[w] == origins@[i];
                    assert(affected@[w] == origins@[i]);
                } else {
                    if !before.contains(o) {
                        assert(affected@.last() == o);
                    }
                }
            }
        }
    }
    while qhead < affected.len()
        invariant
            *states_tx == *old(states_tx),
            qhead <= affected@.len(),
            forall|i: int| 0 <= i < origins@.len() ==> affected@.contains(#[trigger] origins@[i]),
            affected@.no_duplicates(),
            affected@.len() <= nodes_m.dom().len(),
            forall|i: int| 0 <= i < affected@.len() ==> nodes_m.contains_key(
                #[trigger] affected@[i],
            ),
            forall|i: int, j: int|
                #![trigger deps_m[affected@[i]].reverse@[j]]
                0 <= i < qhead && 0 <= j < deps_m[affected@[i]].reverse@.len() ==> (
                deps_m[affected@[i]].reverse@[j].1 matches Dependent::Node { id: d, .. }
                    ==> affected@.contains(d)),
            forall|i: int, j: int|
                #![trigger deps_m[affected@[i]].reverse@[j]]
                0 <= i < qhead && 0 <= j < deps_m[affected@[i]].reverse@.len() ==> (
                deps_m[affected@[i]].reverse@[j].1 matches Dependent::Subscription { id: s }
                    ==> updates@.contains(s)),
        decreases nodes_m.dom().len() - affected@.len(), affected@.len() - qhead,
    {
        let n = affected[qhead];
        let entry = match deps_tx.get(deps_base, n) {
            Some(entry) => entry,
            None => {
                proof {
                    assert(deps_m.contains_key(n));
                    assert(false);
                }
                return Err(Error::Cycle);
            },
        };
        let len = entry.reverse.len();
        let ghost pre_affected = affected@;
        for j in iter: 0..len
            invariant
                *states_tx == *old(states_tx),
                entry.reverse@ == deps_m[n].reverse@,
                len == entry.reverse@.len(),
                qhead < affected@.len(),
                forall|i: int| 0 <= i < origins@.len() ==> affected@.contains(
                    #[trigger] origins@[i],
                ),
                affected@.no_duplicates(),
                affected@.len() <= nodes_m.dom().len(),
                affected@[qhead as int] == n,
                pre_affected.is_prefix_of(affected@),
                forall|i: int| 0 <= i < affected@.len() ==> nodes_m.contains_key(
                    #[trigger] affected@[i],
                ),
                forall|i: int, jj: int|
                    #![trigger deps_m[affected@[i]].reverse@[jj]]
                    0 <= i < qhead && 0 <= jj < deps_m[affected@[i]].reverse@.len() ==> (
                    deps_m[affected@[i]].reverse@[jj].1 matches Dependent::Node { id: d, .. }
                        ==> affected@.contains(d)),
                forall|i: int, jj: int|
                    #![trigger deps_m[affected@[i]].reverse@[jj]]
                    0 <= i < qhead && 0 <= jj < deps_m[affected@[i]].reverse@.len() ==> (
                    deps_m[affected@[i]].reverse@[jj].1 matches Dependent::Subscription { id: s }
                        ==> updates@.contains(s)),
                forall|jj: int|
                    #![trigger entry.reverse@[jj]]
                    0 <= jj < j ==> (entry.reverse@[jj].1 matches Dependent::Node { id: d, .. }
                        ==> affected@.contains(d)),
                forall|jj: int|
                    #![trigger entry.reverse@[jj]]
                    0 <= jj < j ==> (entry.reverse@[jj].1 matches Dependent::Subscription {
                        id: s,
                    } ==> updates@.contains(s)),
        {
            let ghost aff_before = affected@;
            let ghost upd_before = updates@;
            let (_slot, dep) = entry.reverse.entry(j);
            match dep {
                Dependent::Node { id: d, index: _ } => {
                    if !vec_contains(&affected, d) {
                        proof {
                            assert(deps_m[n].reverse@[j as int].1 == dep);
                            assert(nodes_m.contains_key(d));
                            assert(affected@.push(d).no_duplicates());
                            lemma_distinct_subset_len(affected@.push(d), nodes_m.dom());
                        }
                        affected.push(d);
                    }
                },
                Dependent::Subscription { id: s } => {
                    updates.push(s);
                },
            }
            proof {
                assert forall|x: u128| aff_before.contains(x) implies affected@.contains(x) by {
                    let i = choose|i: int| 0 <= i < aff_before.len() && aff_before[i] == x;
                    assert(affected@[i] == x);
                }
                assert forall|x: u128| upd_before.contains(x) implies updates@.contains(x) by {
                    let i = choose|i: int| 0 <= i < upd_before.len() && upd_before[i] == x;
                    assert(updates@[i] == x);
                }
                assert forall|jj: int| 0 <= jj < j + 1 implies ((#[trigger] entry.reverse@[jj]).1
                    matches Dependent::Node { id: d, .. } ==> affected@.contains(d)) by {
                    if jj < j {
                    } else {
                        assert(entry.reverse@[jj].1 == dep);
                        match dep {
                            Dependent::Node { id: d, index: _ } => {
                                if !aff_before.contains(d) {
                                    assert(affected@.last() == d);
                                }
                            },
                            Dependent::Subscription { .. } => {},
                        }
                    }
                }
                assert forall|jj: int| 0 <= jj < j + 1 implies ((#[trigger] entry.reverse@[jj]).1
                    matches Dependent::Subscription { id: s } ==> updates@.contains(s)) by {
                    if jj < j {
                    } else {
                        assert(entry.reverse@[jj].1 == dep);
                        match dep {
                            Dependent::Subscription { id: s } => {
                                assert(updates@.last() == s);
                            },
                            Dependent::Node { .. } => {},
                        }
                    }
                }
            }
        }
        qhead = qhead + 1;
    }

    // Phase two: evaluate the affected nodes, always picking one whose
    // affected inputs are all settled. When none is ready the affected
    // edges close a cycle.
    let ghost aff = affected@;
    proof {
        assert(forall|i: int, j: int|
            #![trigger deps_m[aff[i]].reverse@[j]]
            0 <= i < aff.len() && 0 <= j < deps_m[aff[i]].reverse@.len() ==> (
            deps_m[aff[i]].reverse@[j].1 matches Dependent::Subscription { id: s }
                ==> updates@.contains(s)));
    }
    let mut pending: Vec<u128> = affected;
    let ghost mut order: Seq<u128> = Seq::empty();
    while pending.len() > 0
        invariant
            states_tx.wf(),
            pending@.no_duplicates(),
            order.no_duplicates(),
            forall|i: int| 0 <= i < order.len() ==> aff.contains(#[trigger] order[i]),
            forall|x: u128| #[trigger] aff.contains(x) ==> (order.contains(x)
                <==> !pending@.contains(x)),
            forall|k: int, i: int|
                #![trigger nodes_m[order[k]].dep(i)]
                0 <= k < order.len() && 0 <= i < nodes_m[order[k]].arity()
                    && nodes_m[order[k]].dep(i) is Some && aff.contains(
                    nodes_m[order[k]].dep(i)->Some_0,
                ) ==> exists|j: int| 0 <= j < k && order[j] == nodes_m[order[k]].dep(i)->Some_0,
            forall|i: int| 0 <= i < pending@.len() ==> aff.contains(#[trigger] pending@[i]),
            forall|i: int| 0 <= i < origins@.len() ==> aff.contains(#[trigger] origins@[i]),
            forall|i: int| 0 <= i < aff.len() ==> nodes_m.contains_key(#[trigger] aff[i]),
            forall|i: int, j: int|
                #![trigger deps_m[aff[i]].reverse@[j]]
                0 <= i < aff.len() && 0 <= j < deps_m[aff[i]].reverse@.len() ==> (
                deps_m[aff[i]].reverse@[j].1 matches Dependent::Node { id: d, .. }
                    ==> aff.contains(d)),
            forall|n: u128| #[trigger] states_tx.staged(states_base@).contains_key(n)
                <==> states0.contains_key(n) || (aff.contains(n) && !pending@.contains(n)),
            forall|n: u128| states0.contains_key(n) && !(aff.contains(n) && !pending@.contains(n))
                ==> #[trigger] states_tx.staged(states_base@)[n] == states0[n],
            forall|n: u128| #[trigger] aff.contains(n) && !pending@.contains(n)
                ==> states_tx.staged(states_base@)[n]@ == spec_eval(
                nodes_m[n],
                frames_view(states_tx.staged(states_base@)),
            ),
            forall|n: u128, i: int|
                #![trigger aff.contains(n), nodes_m[n].dep(i)]
                aff.contains(n) && !pending@.contains(n) && 0 <= i < nodes_m[n].arity()
                    && nodes_m[n].dep(i) is Some && aff.contains(nodes_m[n].dep(i)->Some_0)
                    ==> !pending@.contains(nodes_m[n].dep(i)->Some_0),
            forall|n: u128| #[trigger] states0.contains_key(n) && !aff.contains(n)
                ==> states_tx.staged(states_base@)[n]@ == spec_eval(
                nodes_m[n],
                frames_view(states_tx.staged(states_base@)),
            ),
        decreases pending@.len(),
    {
        proof {
            assert forall|i: int| 0 <= i < pending@.len() implies nodes_m.contains_key(
                #[trigger] pending@[i],
            ) by {
                let w = choose|w: int| 0 <= w < aff.len() && aff[w] == pending@[i];
                assert(nodes_m.contains_key(aff[w]));
            }
        }
        let found = find_ready(nodes_base, nodes_tx, &pending);
        match found {
            None => {
                proof {
                    // every waiting node still reads another waiting node,
                    // so the staged edges close a cycle
                    lemma_stuck_means_cycle(nodes_m, pending@);
                }
                return Err(Error::Cycle);
            },
            Some(j) => {
                let ghost pre_pending = pending@;
                let ghost pre_states = states_tx.staged(states_base@);
                let n = pending.remove(j);
                proof {
                    assert(pre_pending.remove(j as int).no_duplicates());
                    assert forall|x: u128| pending@.contains(x) implies pre_pending.contains(x)
                        && x != n by {
                        let i = choose|i: int| 0 <= i < pending@.len() && pending@[i] == x;
                        let si: int = if i < j { i } else { i + 1 };
                        assert(pre_pending[si] == x);
                        if x == n {
                            assert(pre_pending[si] == pre_pending[j as int]);
                            assert(si != j);
                            assert(false);
                        }
                    }
                    assert forall|x: u128| pre_pending.contains(x) && x != n implies
                        pending@.contains(x) by {
                        let i = choose|i: int| 0 <= i < pre_pending.len() && pre_pending[i] == x;
                        if i < j {
                            assert(pending@[i] == x);
                        } else {
                            assert(i != j);
                            assert(pending@[i - 1] == x);
                        }
                    }
                    // the settled node joins the walk's order, behind every
                    // affected input it reads
                    let pre_order = order;
                    order = pre_order.push(n);
                    assert(aff.contains(n)) by {
                        assert(aff.contains(pre_pending[j as int]));
                    }
                    assert(!pre_order.contains(n)) by {
                        assert(pre_pending.contains(n));
                    }
                    assert(order.no_duplicates()) by {
                        assert forall|x: int, y: int| 0 <= x < y < order.len() implies order[x]
                            != order[y] by {
                            if y < order.len() - 1 {
                                assert(order[x] == pre_order[x] && order[y] == pre_order[y]);
                            } else {
                                assert(order[y] == n && order[x] == pre_order[x]);
                                assert(pre_order.contains(pre_order[x]));
                            }
                        }
                    }
                    assert forall|x: u128| #[trigger] aff.contains(x) implies (order.contains(x)
                        <==> !pending@.contains(x)) by {
                        if x == n {
                            assert(order.last() == n);
                        } else {
                            if pre_order.contains(x) {
                                let w = choose|w: int|
                                    0 <= w < pre_order.len() && pre_order[w] == x;
                                assert(order[w] == x);
                            }
                            if order.contains(x) {
                                let w = choose|w: int| 0 <= w < order.len() && order[w] == x;
                                assert(w < order.len() - 1);
                                assert(pre_order[w] == x);
                            }
                        }
                    }
                    assert forall|k: int, i: int|
                        0 <= k < order.len() && 0 <= i < nodes_m[order[k]].arity()
                            && #[trigger] nodes_m[order[k]].dep(i) is Some && aff.contains(
                            nodes_m[order[k]].dep(i)->Some_0,
                        ) implies exists|jx: int|
                        0 <= jx < k && order[jx] == nodes_m[order[k]].dep(i)->Some_0 by {
                        let dd = nodes_m[order[k]].dep(i)->Some_0;
                        if k < order.len() - 1 {
                            assert(order[k] == pre_order[k]);
                            assert(nodes_m[pre_order[k]].dep(i) is Some);
                            let jx = choose|jx: int| 0 <= jx < k && pre_order[jx] == dd;
                            assert(order[jx] == dd);
                        } else {
                            assert(order[k] == n);
                            assert(pre_pending[j as int] == n);
                            // the chosen node was ready: none of its inputs
                            // still waits, so its affected inputs are ordered
                            assert(!pre_pending.contains(dd));
                            assert(pre_order.contains(dd));
                            let jx = choose|jx: int|
                                0 <= jx < pre_order.len() && pre_order[jx] == dd;
                            assert(order[jx] == dd);
                        }
                    }
                }
                let node = match nodes_tx.get(nodes_base, n) {
                    Some(node) => *node,
                    None => {
                        proof {
                            assert(nodes_m.contains_key(n));
                            assert(false);
                        }
                        return Err(Error::Cycle);
                    },
                };
                proof {
                    // every input of the chosen node has a staged frame
                    assert forall|i: int|
                        0 <= i < node.arity() && node.dep(i) is Some implies states_tx.staged(
                        states_base@,
                    ).contains_key(node.dep(i)->Some_0) by {
                        let d = node.dep(i)->Some_0;
                        assert(deps_m[n].forward@.len() == node.arity());
                        match deps_m[n].forward@[i] {
                            Some((m, k)) => {
                                assert(m == d);
                                assert(nodes_m.contains_key(d));
                                if aff.contains(d) {
                                    assert(!pre_pending.contains(d));
                                    assert(!(d == n));
                                } else {
                                    assert(!origins@.contains(d));
                                    assert(states0.contains_key(d));
                                }
                            },
                            None => {
                                assert(node.dep(i) is None);
                            },
                        }
                    }
                }
                let staged = Staged { base: states_base, tx: states_tx };
                let f = match node.evaluate(&staged) {
                    Ok(f) => f,
                    Err(e) => {
                        proof {
                            lemma_frames_view(states_tx.staged(states_base@));
                            assert(false);
                        }
                        Frame::zero()
                    },
                };
                states_tx.insert(n, f);
                proof {
                    let post = states_tx.staged(states_base@);
                    assert(post =~= pre_states.insert(n, f));
                    lemma_frames_view(pre_states);
                    lemma_frames_view(post);
                    assert(frames_view(post) =~= frames_view(pre_states).insert(n, f@));
                    // the chosen node's inputs are all distinct from it and
                    // keep their frames, so its fresh frame is exact
                    assert forall|m: u128| #[trigger] aff.contains(m) && !pending@.contains(m)
                        implies post[m]@ == spec_eval(nodes_m[m], frames_view(post)) by {
                        assert forall|i: int|
                            0 <= i < nodes_m[m].arity() && nodes_m[m].dep(i) is Some implies {
                            let d = nodes_m[m].dep(i)->Some_0;
                            &&& (frames_view(pre_states).contains_key(d) <==> frames_view(
                                post,
                            ).contains_key(d))
                            &&& (frames_view(pre_states).contains_key(d) ==> frames_view(
                                pre_states,
                            )[d] == frames_view(post)[d])
                        } by {
                            let d = nodes_m[m].dep(i)->Some_0;
                            assert(deps_m[m].forward@.len() == nodes_m[m].arity());
                            match deps_m[m].forward@[i] {
                                Some((mm, k)) => {
                                    assert(mm == d);
                                    if m == n {
                                        // n was ready, so none of its
                                        // affected inputs is pending, and n
                                        // itself was pending
                                        if d == n {
                                            assert(aff.contains(d));
                                            assert(!pre_pending.contains(d));
                                            assert(pre_pending.contains(n));
                                            assert(false);
                                        }
                                    } else {
                                        if aff.contains(d) {
                                            assert(!pre_pending.contains(d));
                                            assert(d != n);
                                        } else {
                                            assert(d != n);
                                        }
                                    }
                                    assert(pre_states.contains_key(d) <==> post.contains_key(d));
                                },
                                None => {
                                    assert(nodes_m[m].dep(i) is None);
                                },
                            }
                        }
                        lemma_eval_stable(nodes_m[m], frames_view(pre_states), frames_view(post));
                        if m == n {
                            assert(f@ == spec_eval(node, frames_view(pre_states)));
                            assert(post[n] == f);
                        } else {
                            assert(pre_states[m]@ == spec_eval(
                                nodes_m[m],
                                frames_view(pre_states),
                            ));
                            assert(post[m] == pre_states[m]);
                        }
                    }
                    // untouched nodes outside the affected set stay exact
                    assert forall|m: u128| #[trigger] states0.contains_key(m) && !aff.contains(m)
                        implies post[m]@ == spec_eval(nodes_m[m], frames_view(post)) by {
                        assert forall|i: int|
                            0 <= i < nodes_m[m].arity() && nodes_m[m].dep(i) is Some implies {
                            let d = nodes_m[m].dep(i)->Some_0;
                            &&& (frames_view(pre_states).contains_key(d) <==> frames_view(
                                post,
                            ).contains_key(d))
                            &&& (frames_view(pre_states).contains_key(d) ==> frames_view(
                                pre_states,
                            )[d] == frames_view(post)[d])
                        } by {
                            let d = nodes_m[m].dep(i)->Some_0;
                            assert(deps_m[m].forward@.len() == nodes_m[m].arity());
                            match deps_m[m].forward@[i] {
                                Some((mm, k)) => {
                                    assert(mm == d);
                                    if d == n {
                                        // an affected input would pull `m`
                                        // into the affected set
                                        assert(aff.contains(d));
                                        crate::deps::lemma_revlist_domain(deps_m[d].reverse);
                                        assert(deps_m[d].reverse.has_slot(k));
                                        let jj = choose|jj: int|
                                            0 <= jj < deps_m[d].reverse@.len()
                                                && deps_m[d].reverse@[jj].0 == k;
                                        crate::deps::lemma_revlist_lookup(deps_m[d].reverse, jj);
                                        let ii = choose|ii: int|
                                            0 <= ii < aff.len() && aff[ii] == d;
                                        assert(deps_m[aff[ii]].reverse@[jj].1
                                            == (Dependent::Node { id: m, index: i as u32 }));
                                        assert(aff.contains(m));
                                        assert(false);
                                    }
                                },
                                None => {
                                    assert(nodes_m[m].dep(i) is None);
                                },
                            }
                        }
                        lemma_eval_stable(nodes_m[m], frames_view(pre_states), frames_view(post));
                        assert(m != n);
                        assert(post[m] == pre_states[m]);
                    }
                }
            },
        }
    }
    proof {
        let states1 = states_tx.staged(states_base@);
        assert(states1.dom() =~= nodes_m.dom()) by {
            assert forall|n: u128| states1.contains_key(n) implies nodes_m.contains_key(n) by {
                if states0.contains_key(n) {
                } else {
                    assert(aff.contains(n));
                }
            }
            assert forall|n: u128| nodes_m.contains_key(n) implies states1.contains_key(n) by {
                if !aff.contains(n) {
                    assert(!origins@.contains(n));
                    assert(states0.contains_key(n));
                }
            }
        }
        assert forall|n: u128| #[trigger] nodes_m.contains_key(n) implies states1[n]@ == spec_eval(
            nodes_m[n],
            frames_view(states1),
        ) by {
            if aff.contains(n) {
            } else {
                assert(!origins@.contains(n));
                assert(states0.contains_key(n));
            }
        }
        // the walk's own order witnesses that the staged edges are acyclic
        assert forall|x: u128| #[trigger] aff.contains(x) implies order.contains(x) by {
            assert(!pending@.contains(x));
        }
        assert forall|x: u128| #[trigger] order.contains(x) implies aff.contains(x) by {
            let w = choose|w: int| 0 <= w < order.len() && order[w] == x;
            assert(aff.contains(order[w]));
        }
        assert forall|n: u128| nodes_m.contains_key(n) && !aff.contains(n) implies
            nodes_base@.contains_key(n) && nodes_m[n] == nodes_base@[n] by {
            assert(!origins@.contains(n)) by {
                if origins@.contains(n) {
                    let w = choose|w: int| 0 <= w < origins@.len() && origins@[w] == n;
                    assert(aff.contains(origins@[w]));
                }
            }
        }
        lemma_order_witnesses_acyclic(nodes_m, deps_m, nodes_base@, aff, order);
        // every subscription hanging on a node whose frame was rewritten
        // was collected by the walk
        assert forall|n: u128, j: int|
            nodes_m.contains_key(n) && 0 <= j < deps_m[n].reverse@.len() && !(
            states0.contains_key(n) && states1[n] == states0[n]) implies ((
        #[trigger] deps_m[n].reverse@[j]).1 matches Dependent::Subscription { id: s }
            ==> updates@.contains(s)) by {
            assert(aff.contains(n)) by {
                if !aff.contains(n) {
                    assert(states1.contains_key(n));
                    assert(states0.contains_key(n));
                    assert(states1[n] == states0[n]);
                }
            }
            let ai = choose|ai: int| 0 <= ai < aff.len() && aff[ai] == n;
            assert(deps_m[aff[ai]].reverse@[j].1 == deps_m[n].reverse@[j].1);
        }
    }
    Ok(updates)
}


/// The forward list with every edge into `target` taken out.
pub open spec fn cleared_fwd(s: Seq<Option<(u128, u128)>>, target: u128) -> Seq<
    Option<(u128, u128)>,
> {
    Seq::new(
        s.len(),
        |i: int|
            match s[i] {
                Some((m, k)) => if m == target {
                    None
                } else {
                    Some((m, k))
                },
                None => None,
            },
    )
}

/// Executable form of `cleared_fwd`.
fn clear_forward(v: &Vec<Option<(u128, u128)>>, target: u128) -> (r: Vec<Option<(u128, u128)>>)
    ensures
        r@ == cleared_fwd(v@, target),
{
    let mut out: Vec<Option<(u128, u128)>> = Vec::new();
    for i in 0..v.len()
        invariant
            out@.len() == i,
            forall|j: int| 0 <= j < i ==> out@[j] == cleared_fwd(v@, target)[j],
    {
        match v[i] {
            Some((m, k)) => {
                if m == target {
                    out.push(None);
                } else {
                    out.push(Some((m, k)));
                }
            },
            None => {
                out.push(None);
            },
        }
    }
    proof {
        assert(out@ =~= cleared_fwd(v@, target));
    }
    out
}

} // verus!
