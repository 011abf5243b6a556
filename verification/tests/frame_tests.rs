use cbmix::frame::{add_frames, mul_frames, Frame};
use cbmix::node::ChannelMap;

fn filled(value: u8) -> Frame {
    Frame::from_bytes(&vec![value; 512]).expect("512 bytes make a frame")
}

#[test]
fn zero_frame_is_all_zero() {
    let z = Frame::zero();
    for i in 0..512 {
        assert_eq!(z.get(i), 0);
    }
}

#[test]
fn from_bytes_accepts_exactly_512() {
    assert!(Frame::from_bytes(&vec![7u8; 512]).is_some());
    assert!(Frame::from_bytes(&vec![7u8; 511]).is_none());
    assert!(Frame::from_bytes(&vec![7u8; 513]).is_none());
    assert!(Frame::from_bytes(&Vec::new()).is_none());
}

#[test]
fn equality_is_bytewise() {
    let a = filled(9);
    let b = filled(9);
    let c = filled(10);
    assert!(a.equals(&b));
    assert!(!a.equals(&c));
}

#[test]
fn addition_saturates_at_255() {
    let a = filled(200);
    let b = filled(100);
    let sum = add_frames(&a, &b);
    for i in 0..512 {
        assert_eq!(sum.get(i), 255);
    }
    let small = add_frames(&filled(3), &filled(4));
    assert_eq!(small.get(0), 7);
}

#[test]
fn multiplication_truncates() {
    let product = mul_frames(&filled(200), &filled(100));
    for i in 0..512 {
        assert_eq!(product.get(i), 78);
    }
    let by_full = mul_frames(&filled(80), &filled(255));
    assert_eq!(by_full.get(0), 80);
    let by_zero = mul_frames(&filled(80), &filled(0));
    assert_eq!(by_zero.get(0), 0);
}

#[test]
fn to_vec_round_trips() {
    let mut bytes = vec![0u8; 512];
    for (i, b) in bytes.iter_mut().enumerate() {
        *b = (i % 256) as u8;
    }
    let f = Frame::from_bytes(&bytes).unwrap();
    assert_eq!(f.to_vec(), bytes);
}

#[test]
fn channel_map_rejects_out_of_range_entries() {
    assert!(ChannelMap::from_vec(&vec![0u16; 512]).is_some());
    assert!(ChannelMap::from_vec(&vec![511u16; 512]).is_some());
    assert!(ChannelMap::from_vec(&vec![512u16; 512]).is_none());
    let mut one_bad = vec![0u16; 512];
    one_bad[100] = 600;
    assert!(ChannelMap::from_vec(&one_bad).is_none());
    assert!(ChannelMap::from_vec(&vec![0u16; 511]).is_none());
}
