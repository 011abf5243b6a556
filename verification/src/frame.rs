use vstd::prelude::*;
use crate::CHANNELS;

verus! {

broadcast use vstd::array::group_array_axioms;

/// The frame every channel of which is zero.
pub open spec fn zero_frame() -> Seq<u8> {
    Seq::new(CHANNELS as nat, |i: int| 0u8)
}

/// Per-channel saturating addition: the sum is capped at 255.
pub open spec fn add_byte(x: u8, y: u8) -> u8 {
    if x + y > 255 {
        255u8
    } else {
        (x + y) as u8
    }
}

/// Per-channel scaling: each byte is treated as an intensity in [0, 1],
/// so the product is divided by 255, truncating.
pub open spec fn mul_byte(x: u8, y: u8) -> u8 {
    ((x * y) / 255) as u8
}

pub open spec fn add_bytes(a: Seq<u8>, b: Seq<u8>) -> Seq<u8> {
    Seq::new(CHANNELS as nat, |i: int| add_byte(a[i], b[i]))
}

pub open spec fn mul_bytes(a: Seq<u8>, b: Seq<u8>) -> Seq<u8> {
    Seq::new(CHANNELS as nat, |i: int| mul_byte(a[i], b[i]))
}

/// Channel `c` of the result reads channel `map[c]` of the input.
pub open spec fn rewire_bytes(a: Seq<u8>, map: Seq<u16>) -> Seq<u8> {
    Seq::new(CHANNELS as nat, |i: int| if 0 <= map[i] < CHANNELS { a[map[i] as int] } else { 0u8 })
}

/// One DMX frame: exactly `CHANNELS` bytes, one per channel.
/// A value type, compared by content.
#[derive(Clone, Copy, Debug)]
pub struct Frame {
    bytes: [u8; CHANNELS],
}

/// Every frame has exactly `CHANNELS` channels.
pub broadcast proof fn lemma_frame_len(f: Frame)
    ensures
        (#[trigger] f@).len() == CHANNELS,
{
}

impl View for Frame {
    type V = Seq<u8>;

    closed spec fn view(&self) -> Seq<u8> {
        self.bytes@
    }
}

impl Frame {
    /// The distinguished all-zero frame.
    pub fn zero() -> (f: Frame)
        ensures
            f@ == zero_frame(),
    {
        let f = Frame { bytes: [0u8; CHANNELS] };
        proof {
            assert(f@ =~= zero_frame());
        }
        f
    }

    /// Builds a frame from exactly `CHANNELS` bytes; any other length is rejected.
    pub fn from_bytes(bytes: &Vec<u8>) -> (r: Option<Frame>)
        ensures
            match r {
                Some(f) => bytes@.len() == CHANNELS && f@ == bytes@,
                None => bytes@.len() != CHANNELS,
            },
    {
        if bytes.len() != CHANNELS {
            return None;
        }
        let mut out = [0u8; CHANNELS];
        for i in 0..CHANNELS
            invariant
                bytes@.len() == CHANNELS,
                out@.len() == CHANNELS,
                forall|j: int| 0 <= j < i ==> out@[j] == bytes@[j],
        {
            out[i] = bytes[i];
        }
        let f = Frame { bytes: out };
        proof {
            assert(f@ =~= bytes@);
        }
        Some(f)
    }

    /// Reads one channel.
    pub fn get(&self, channel: usize) -> (b: u8)
        requires
            channel < CHANNELS,
        ensures
            b == self@[channel as int],
    {
        self.bytes[channel]
    }

    /// Bytewise equality of two frames.
    pub fn equals(&self, other: &Frame) -> (r: bool)
        ensures
            r <==> self@ == other@,
    {
        for i in 0..CHANNELS
            invariant
                forall|j: int| 0 <= j < i ==> self@[j] == other@[j],
        {
            if self.bytes[i] != other.bytes[i] {
                return false;
            }
        }
        proof {
            assert(self@ =~= other@);
        }
        true
    }

    /// The frame's bytes as a vector, for callers outside the graph.
    pub fn to_vec(&self) -> (r: Vec<u8>)
        ensures
            r@ == self@,
    {
        let mut out: Vec<u8> = Vec::new();
        for i in 0..CHANNELS
            invariant
                out@.len() == i,
                forall|j: int| 0 <= j < i ==> out@[j] == self@[j],
        {
            out.push(self.bytes[i]);
        }
        proof {
            assert(out@ =~= self@);
        }
        out
    }
}

/// Saturating per-channel addition of two frames.
pub fn add_frames(a: &Frame, b: &Frame) -> (r: Frame)
    ensures
        r@ == add_bytes(a@, b@),
{
    let mut out = [0u8; CHANNELS];
    for i in 0..CHANNELS
        invariant
            out@.len() == CHANNELS,
            forall|j: int| 0 <= j < i ==> out@[j] == add_byte(a@[j], b@[j]),
    {
        let sum: u16 = a.get(i) as u16 + b.get(i) as u16;
        out[i] = if sum > 255 {
            255u8
        } else {
            sum as u8
        };
    }
    let f = Frame { bytes: out };
    proof {
        assert(f@ =~= add_bytes(a@, b@));
    }
    f
}

/// Truncating per-channel multiplication of two frames.
pub fn mul_frames(a: &Frame, b: &Frame) -> (r: Frame)
    ensures
        r@ == mul_bytes(a@, b@),
{
    let mut out = [0u8; CHANNELS];
    for i in 0..CHANNELS
        invariant
            out@.len() == CHANNELS,
            forall|j: int| 0 <= j < i ==> out@[j] == mul_byte(a@[j], b@[j]),
    {
        let x = a.get(i);
        let y = b.get(i);
        proof {
            assert(x as u32 * y as u32 <= 65025) by (nonlinear_arith)
                requires
                    x <= 255,
                    y <= 255,
            ;
        }
        let product: u32 = x as u32 * y as u32;
        out[i] = (product / 255) as u8;
    }
    let f = Frame { bytes: out };
    proof {
        assert(f@ =~= mul_bytes(a@, b@));
    }
    f
}

} // verus!
