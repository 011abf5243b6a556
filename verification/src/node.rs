use vstd::prelude::*;
use crate::CHANNELS;
use crate::frame::{Frame, add_bytes, add_frames, mul_bytes, mul_frames, rewire_bytes, zero_frame};
use crate::maplike::MapLike;

verus! {

broadcast use vstd::array::group_array_axioms, crate::frame::lemma_frame_len;

/// A rewiring table: one source channel for each output channel,
/// every entry below `CHANNELS`. A table with a larger entry is
/// rejected at construction.
#[derive(Clone, Copy, Debug)]
pub struct ChannelMap {
    map: [u16; CHANNELS],
}

impl View for ChannelMap {
    type V = Seq<u16>;

    closed spec fn view(&self) -> Seq<u16> {
        self.map@
    }
}

impl ChannelMap {
    pub open spec fn wf(self) -> bool {
        &&& self@.len() == CHANNELS
        &&& forall|i: int| 0 <= i < CHANNELS ==> self@[i] < CHANNELS
    }

    /// Builds a rewiring table from exactly `CHANNELS` entries, each below
    /// `CHANNELS`; anything else is rejected.
    pub fn from_vec(entries: &Vec<u16>) -> (r: Option<ChannelMap>)
        ensures
            match r {
                Some(m) => m@ == entries@ && m.wf(),
                None => entries@.len() != CHANNELS
                    || exists|i: int| 0 <= i < CHANNELS && entries@[i] >= CHANNELS,
            },
    {
        if entries.len() != CHANNELS {
            return None;
        }
        let mut out = [0u16; CHANNELS];
        for i in 0..CHANNELS
            invariant
                entries@.len() == CHANNELS,
                out@.len() == CHANNELS,
                forall|j: int| 0 <= j < i ==> out@[j] == entries@[j] && entries@[j] < CHANNELS,
        {
            if entries[i] >= 512 {
                return None;
            }
            out[i] = entries[i];
        }
        let m = ChannelMap { map: out };
        proof {
            assert(m@ =~= entries@);
        }
        Some(m)
    }

    pub fn get(&self, channel: usize) -> (v: u16)
        requires
            channel < CHANNELS,
        ensures
            v == self@[channel as int],
    {
        self.map[channel]
    }
}

/// The reason evaluation can fail: the input in the named slot names an
/// upstream node that the state lookup does not know.
#[derive(Clone, Copy, PartialEq, Eq, Structural, Debug)]
pub enum NodeError {
    NoInput(u32),
}

/// One pure computation in the scene graph.
#[derive(Clone, Copy, Debug)]
pub enum Node {
    /// A stored constant frame.
    Static { frame: Frame },
    /// Saturating per-channel sum of up to two upstream frames.
    Add { a: Option<u128>, b: Option<u128> },
    /// Truncating per-channel product of up to two upstream frames.
    Multiply { a: Option<u128>, b: Option<u128> },
    /// Channel permutation / copy of one upstream frame.
    Rewire { input: Option<u128>, map: ChannelMap },
}

impl Node {
    pub open spec fn wf(self) -> bool {
        match self {
            Node::Static { frame } => frame@.len() == CHANNELS,
            Node::Add { .. } => true,
            Node::Multiply { .. } => true,
            Node::Rewire { map, .. } => map.wf(),
        }
    }

    /// How many input slots the variant has; fixed for its lifetime.
    pub open spec fn arity(self) -> nat {
        match self {
            Node::Static { .. } => 0,
            Node::Add { .. } => 2,
            Node::Multiply { .. } => 2,
            Node::Rewire { .. } => 1,
        }
    }

    /// The upstream bound in slot `i`, if any.
    pub open spec fn dep(self, i: int) -> Option<u128> {
        match self {
            Node::Static { .. } => None,
            Node::Add { a, b } => if i == 0 { a } else { b },
            Node::Multiply { a, b } => if i == 0 { a } else { b },
            Node::Rewire { input, .. } => input,
        }
    }

    /// The node after slot `index` has been set to unbound.
    pub open spec fn unlink_spec(self, index: u32) -> Node {
        match self {
            Node::Static { frame } => Node::Static { frame },
            Node::Add { a, b } => {
                if index == 0 { Node::Add { a: None, b } }
                else if index == 1 { Node::Add { a, b: None } }
                else { Node::Add { a, b } }
            },
            Node::Multiply { a, b } => {
                if index == 0 { Node::Multiply { a: None, b } }
                else if index == 1 { Node::Multiply { a, b: None } }
                else { Node::Multiply { a, b } }
            },
            Node::Rewire { input, map } => {
                if index == 0 { Node::Rewire { input: None, map } }
                else { Node::Rewire { input, map } }
            },
        }
    }

    /// The node with every slot bound to `target` set to unbound.
    pub open spec fn without_input(self, target: u128) -> Node {
        match self {
            Node::Static { frame } => Node::Static { frame },
            Node::Add { a, b } => Node::Add {
                a: if a == Some(target) { None } else { a },
                b: if b == Some(target) { None } else { b },
            },
            Node::Multiply { a, b } => Node::Multiply {
                a: if a == Some(target) { None } else { a },
                b: if b == Some(target) { None } else { b },
            },
            Node::Rewire { input, map } => Node::Rewire {
                input: if input == Some(target) { None } else { input },
                map,
            },
        }
    }

    /// The node with every slot unbound.
    pub open spec fn unbound_spec(self) -> Node {
        match self {
            Node::Static { frame } => Node::Static { frame },
            Node::Add { .. } => Node::Add { a: None, b: None },
            Node::Multiply { .. } => Node::Multiply { a: None, b: None },
            Node::Rewire { map, .. } => Node::Rewire { input: None, map },
        }
    }

    /// Unbinding a node that never read `target` changes nothing.
    pub proof fn lemma_without_absent_input(self, target: u128)
        requires
            forall|i: int| 0 <= i < self.arity() ==> self.dep(i) != Some(target),
        ensures
            self.without_input(target) == self,
    {
        match self {
            Node::Static { .. } => {},
            Node::Add { a, b } => {
                assert(self.dep(0) == a && self.dep(1) == b);
            },
            Node::Multiply { a, b } => {
                assert(self.dep(0) == a && self.dep(1) == b);
            },
            Node::Rewire { input, .. } => {
                assert(self.dep(0) == input);
            },
        }
    }

    /// How unbinding one upstream rewrites the slots: a slot bound to
    /// `target` becomes unbound, every other slot and the arity are kept.
    pub proof fn lemma_without_input_deps(self, target: u128)
        ensures
            self.without_input(target).arity() == self.arity(),
            forall|i: int| self.without_input(target).dep(i) == (if self.dep(i) == Some(target) {
                None::<u128>
            } else {
                self.dep(i)
            }),
    {
        assert forall|i: int| self.without_input(target).dep(i) == (if self.dep(i) == Some(
            target,
        ) {
            None::<u128>
        } else {
            self.dep(i)
        }) by {
            match self {
                Node::Static { .. } => {},
                Node::Add { a, b } => {},
                Node::Multiply { a, b } => {},
                Node::Rewire { input, .. } => {},
            }
        }
    }

    /// A fully unbound node reads nothing.
    pub proof fn lemma_unbound_deps(self)
        ensures
            self.unbound_spec().arity() == self.arity(),
            forall|i: int| self.unbound_spec().dep(i) is None,
    {
        assert forall|i: int| self.unbound_spec().dep(i) is None by {
            match self {
                Node::Static { .. } => {},
                Node::Add { .. } => {},
                Node::Multiply { .. } => {},
                Node::Rewire { .. } => {},
            }
        }
    }

    /// Executable form of `without_input`.
    pub fn drop_input(&self, target: u128) -> (r: Node)
        ensures
            r == self.without_input(target),
    {
        match *self {
            Node::Static { frame } => Node::Static { frame },
            Node::Add { a, b } => Node::Add {
                a: drop_if_equal(a, target),
                b: drop_if_equal(b, target),
            },
            Node::Multiply { a, b } => Node::Multiply {
                a: drop_if_equal(a, target),
                b: drop_if_equal(b, target),
            },
            Node::Rewire { input, map } => Node::Rewire {
                input: drop_if_equal(input, target),
                map,
            },
        }
    }

    /// Executable form of `unbound_spec`.
    pub fn unbound(&self) -> (r: Node)
        ensures
            r == self.unbound_spec(),
    {
        match *self {
            Node::Static { frame } => Node::Static { frame },
            Node::Add { .. } => Node::Add { a: None, b: None },
            Node::Multiply { .. } => Node::Multiply { a: None, b: None },
            Node::Rewire { map, .. } => Node::Rewire { input: None, map },
        }
    }

    /// The ordered list of optional upstream identifiers, one per slot.
    pub fn dependencies(&self) -> (v: Vec<Option<u128>>)
        ensures
            v@.len() == self.arity(),
            forall|i: int| 0 <= i < v@.len() ==> v@[i] == self.dep(i),
    {
        match self {
            Node::Static { .. } => Vec::new(),
            Node::Add { a, b } => {
                let mut v: Vec<Option<u128>> = Vec::new();
                v.push(*a);
                v.push(*b);
                v
            },
            Node::Multiply { a, b } => {
                let mut v: Vec<Option<u128>> = Vec::new();
                v.push(*a);
                v.push(*b);
                v
            },
            Node::Rewire { input, .. } => {
                let mut v: Vec<Option<u128>> = Vec::new();
                v.push(*input);
                v
            },
        }
    }

    /// Sets the named input slot to unbound; slots past the arity are left alone.
    pub fn unlink(&mut self, index: u32)
        ensures
            *final(self) == old(self).unlink_spec(index),
    {
        *self = self.unlink_spec_exec(index);
    }

    fn unlink_spec_exec(&self, index: u32) -> (r: Node)
        ensures
            r == self.unlink_spec(index),
    {
        match *self {
            Node::Static { frame } => Node::Static { frame },
            Node::Add { a, b } => {
                if index == 0 { Node::Add { a: None, b } }
                else if index == 1 { Node::Add { a, b: None } }
                else { Node::Add { a, b } }
            },
            Node::Multiply { a, b } => {
                if index == 0 { Node::Multiply { a: None, b } }
                else if index == 1 { Node::Multiply { a, b: None } }
                else { Node::Multiply { a, b } }
            },
            Node::Rewire { input, map } => {
                if index == 0 { Node::Rewire { input: None, map } }
                else { Node::Rewire { input, map } }
            },
        }
    }
}

/// `slot`, with a binding to `target` taken out.
fn drop_if_equal(slot: Option<u128>, target: u128) -> (r: Option<u128>)
    ensures
        r == (if slot == Some(target) { None } else { slot }),
{
    match slot {
        Some(x) => if x == target {
            None
        } else {
            Some(x)
        },
        None => None,
    }
}

/// The frame an operand contributes: the upstream's frame when the slot is
/// bound and the lookup knows it, and the zero frame otherwise.
pub open spec fn operand(states: Map<u128, Seq<u8>>, d: Option<u128>) -> Seq<u8> {
    match d {
        None => zero_frame(),
        Some(id) => if states.contains_key(id) {
            states[id]
        } else {
            zero_frame()
        },
    }
}

/// The frames of a state table, keyed as the table is.
pub open spec fn frames_view(m: Map<u128, Frame>) -> Map<u128, Seq<u8>> {
    m.map_values(|f: Frame| f@)
}

/// What a node evaluates to over a state lookup, reading every absent or
/// unbound operand as the zero frame.
pub open spec fn spec_eval(node: Node, states: Map<u128, Seq<u8>>) -> Seq<u8> {
    match node {
        Node::Static { frame } => frame@,
        Node::Add { a, b } => add_bytes(operand(states, a), operand(states, b)),
        Node::Multiply { a, b } => mul_bytes(operand(states, a), operand(states, b)),
        Node::Rewire { input, map } => rewire_bytes(operand(states, input), map@),
    }
}

/// Whether every bound input of `node` is present in `states`.
pub open spec fn all_inputs_present(node: Node, states: Map<u128, Seq<u8>>) -> bool {
    forall|i: int| 0 <= i < node.arity() && node.dep(i) is Some
        ==> states.contains_key(node.dep(i)->Some_0)
}

impl Node {
    /// Computes the node's frame over the given state lookup. Returns
    /// `NoInput(i)` for the first slot whose bound upstream the lookup does
    /// not know; unbound slots read as the zero frame.
    pub fn evaluate<S: MapLike<Frame>>(&self, states: &S) -> (r: Result<Frame, NodeError>)
        requires
            states.inv(),
        ensures
            match r {
                Ok(f) => {
                    &&& all_inputs_present(*self, frames_view(states.contents()))
                    &&& f@ == spec_eval(*self, frames_view(states.contents()))
                },
                Err(NodeError::NoInput(i)) => {
                    &&& 0 <= i < self.arity()
                    &&& self.dep(i as int) is Some
                    &&& !frames_view(states.contents()).contains_key(self.dep(i as int)->Some_0)
                    &&& forall|j: int| 0 <= j < i ==> !(self.dep(j) is Some
                        && !frames_view(states.contents()).contains_key(self.dep(j)->Some_0))
                },
            },
    {
        let ghost fv = frames_view(states.contents());
        proof {
            assert forall|id: u128| #[trigger] fv.contains_key(id)
                == states.contents().contains_key(id) by {};
        }
        match *self {
            Node::Static { frame } => Ok(frame),
            Node::Add { a, b } => {
                let fa = match read_operand(states, &a, 0) {
                    Ok(f) => f,
                    Err(e) => { return Err(e); },
                };
                let fb = match read_operand(states, &b, 1) {
                    Ok(f) => f,
                    Err(e) => { return Err(e); },
                };
                Ok(add_frames(&fa, &fb))
            },
            Node::Multiply { a, b } => {
                let fa = match read_operand(states, &a, 0) {
                    Ok(f) => f,
                    Err(e) => { return Err(e); },
                };
                let fb = match read_operand(states, &b, 1) {
                    Ok(f) => f,
                    Err(e) => { return Err(e); },
                };
                Ok(mul_frames(&fa, &fb))
            },
            Node::Rewire { input, map } => {
                let fi = match read_operand(states, &input, 0) {
                    Ok(f) => f,
                    Err(e) => { return Err(e); },
                };
                let out = rewire_frame(&fi, &map);
                Ok(out)
            },
        }
    }
}

/// Fetches one operand: the upstream frame when bound and known, the zero
/// frame when unbound, and `NoInput(slot)` when bound but unknown.
fn read_operand<S: MapLike<Frame>>(states: &S, d: &Option<u128>, slot: u32) -> (r: Result<
    Frame,
    NodeError,
>)
    requires
        states.inv(),
    ensures
        match r {
            Ok(f) => {
                &&& f@ == operand(frames_view(states.contents()), *d)
                &&& (d is Some ==> frames_view(states.contents()).contains_key(d->Some_0))
            },
            Err(e) => e == NodeError::NoInput(slot) && d is Some && !frames_view(
                states.contents(),
            ).contains_key(d->Some_0),
        },
{
    match d {
        None => Ok(Frame::zero()),
        Some(id) => match states.get(*id) {
            Some(f) => {
                proof {
                    assert(frames_view(states.contents()).contains_key(*id));
                    assert(frames_view(states.contents())[*id] == f@);
                }
                Ok(*f)
            },
            None => {
                proof {
                    assert(!frames_view(states.contents()).contains_key(*id));
                }
                Err(NodeError::NoInput(slot))
            },
        },
    }
}

/// Applies a rewiring table to one frame.
fn rewire_frame(input: &Frame, map: &ChannelMap) -> (r: Frame)
    ensures
        r@ == rewire_bytes(input@, map@),
{
    let mut bytes: Vec<u8> = Vec::new();
    for i in 0..CHANNELS
        invariant
            map@.len() == CHANNELS,
            input@.len() == CHANNELS,
            bytes@.len() == i,
            forall|j: int| 0 <= j < i ==> bytes@[j] == rewire_bytes(input@, map@)[j],
    {
        let source = map.get(i);
        let b = if source < 512 {
            input.get(source as usize)
        } else {
            0u8
        };
        bytes.push(b);
    }
    let out = Frame::from_bytes(&bytes);
    match out {
        Some(f) => {
            proof {
                assert(f@ =~= rewire_bytes(input@, map@));
            }
            f
        },
        None => {
            proof {
                assert(false);
            }
            Frame::zero()
        },
    }
}

} // verus!
