use std::collections::HashMap;
use cbmix::frame::Frame;
use cbmix::node::{Node, NodeError};

fn filled(value: u8) -> Frame {
    Frame::from_bytes(&vec![value; 512]).expect("512 bytes make a frame")
}

#[test]
fn dependencies_follow_the_variant() {
    assert_eq!(Node::Static { frame: filled(0) }.dependencies(), vec![]);
    assert_eq!(Node::Add { a: Some(1), b: None }.dependencies(), vec![Some(1), None]);
    assert_eq!(Node::Multiply { a: None, b: Some(2) }.dependencies(), vec![None, Some(2)]);
    let map = cbmix::node::ChannelMap::from_vec(&vec![0u16; 512]).unwrap();
    assert_eq!(Node::Rewire { input: Some(3), map }.dependencies(), vec![Some(3)]);
}

#[test]
fn evaluate_reports_the_first_missing_input() {
    let mut states: HashMap<u128, Frame> = HashMap::new();
    states.insert(1, filled(10));

    let both_missing = Node::Add { a: Some(7), b: Some(8) };
    assert!(matches!(both_missing.evaluate(&states), Err(NodeError::NoInput(0))));

    let second_missing = Node::Add { a: Some(1), b: Some(8) };
    assert!(matches!(second_missing.evaluate(&states), Err(NodeError::NoInput(1))));
}

#[test]
fn evaluate_reads_unbound_inputs_as_zero() {
    let mut states: HashMap<u128, Frame> = HashMap::new();
    states.insert(1, filled(10));

    let half_bound = Node::Add { a: Some(1), b: None };
    let frame = half_bound.evaluate(&states).unwrap();
    assert_eq!(frame.get(0), 10);

    let unbound_product = Node::Multiply { a: Some(1), b: None };
    let frame = unbound_product.evaluate(&states).unwrap();
    assert_eq!(frame.get(0), 0);

    let nothing = Node::Add { a: None, b: None };
    let frame = nothing.evaluate(&states).unwrap();
    assert_eq!(frame.get(0), 0);
}

#[test]
fn unlink_clears_exactly_one_slot() {
    let mut node = Node::Add { a: Some(1), b: Some(2) };
    node.unlink(0);
    assert_eq!(node.dependencies(), vec![None, Some(2)]);
    node.unlink(1);
    assert_eq!(node.dependencies(), vec![None, None]);

    let mut stat = Node::Static { frame: filled(4) };
    stat.unlink(0);
    assert!(matches!(stat, Node::Static { .. }));
}
