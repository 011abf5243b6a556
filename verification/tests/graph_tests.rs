use cbmix::frame::Frame;
use cbmix::graph::Error;
use cbmix::node::Node;
use cbmix::subscription::GraphUpdate;
use cbmix::SceneGraph;
use tokio::sync::mpsc;

const A: u128 = 1;
const B: u128 = 2;
const C: u128 = 3;

fn static_node(value: u8) -> Node {
    Node::Static { frame: Frame::from_bytes(&vec![value; 512]).expect("512 bytes make a frame") }
}

fn expect_update(
    rx: &mut mpsc::Receiver<GraphUpdate>,
    expected_value: u8,
) -> u128 {
    match rx.try_recv() {
        Ok(GraphUpdate::Update { id, channels }) => {
            assert_eq!(channels.to_vec(), vec![expected_value; 512]);
            id
        },
        other => panic!("expected an update, got {:?}", other),
    }
}

fn expect_silence(rx: &mut mpsc::Receiver<GraphUpdate>) {
    assert!(rx.try_recv().is_err());
}

/// Builds the little mixing pipeline used by several scenarios:
/// `A` and `B` are static frames, `C` adds them.
fn pipeline(a: u8, b: u8) -> SceneGraph {
    let mut graph = SceneGraph::new();
    graph.insert(A, static_node(a)).unwrap();
    graph.insert(B, static_node(b)).unwrap();
    graph.insert(C, Node::Add { a: Some(A), b: Some(B) }).unwrap();
    graph
}

#[test]
fn pipeline_delivers_sums_and_changes() {
    let mut graph = pipeline(1, 2);
    let (tx, mut rx) = mpsc::channel(16);
    let sid = graph.subscribe(C, tx).unwrap();

    let first = expect_update(&mut rx, 3);
    assert_eq!(first, sid);

    graph.insert(B, static_node(5)).unwrap();
    expect_update(&mut rx, 6);
    expect_silence(&mut rx);
}

#[test]
fn cycle_is_rejected_and_graph_unchanged() {
    let mut graph = SceneGraph::new();
    graph.insert(A, static_node(0)).unwrap();
    graph.insert(B, Node::Add { a: Some(A), b: None }).unwrap();
    let before = graph.state(A).unwrap();

    let result = graph.insert(A, Node::Multiply { a: Some(B), b: None });
    assert_eq!(result, Err(Error::Cycle));

    match graph.get(A).unwrap() {
        Node::Static { frame } => assert_eq!(frame.to_vec(), vec![0u8; 512]),
        other => panic!("node A should still be static, got {:?}", other),
    }
    assert!(graph.state(A).unwrap().equals(&before));
}

#[test]
fn self_cycle_is_rejected() {
    let mut graph = SceneGraph::new();
    graph.insert(A, static_node(1)).unwrap();
    let result = graph.insert(A, Node::Add { a: Some(A), b: None });
    assert_eq!(result, Err(Error::Cycle));
}

#[test]
fn addition_saturates_in_the_graph() {
    let graph = pipeline(200, 100);
    assert_eq!(graph.state(C).unwrap().to_vec(), vec![255u8; 512]);
}

#[test]
fn rewire_reads_the_mapped_channel() {
    let mut bytes = vec![0u8; 512];
    for (i, b) in bytes.iter_mut().enumerate() {
        *b = (i % 256) as u8;
    }
    let mut reversed = vec![0u16; 512];
    for (i, m) in reversed.iter_mut().enumerate() {
        *m = (511 - i) as u16;
    }
    let mut graph = SceneGraph::new();
    graph
        .insert(A, Node::Static { frame: Frame::from_bytes(&bytes).unwrap() })
        .unwrap();
    let map = cbmix::node::ChannelMap::from_vec(&reversed).unwrap();
    graph.insert(B, Node::Rewire { input: Some(A), map }).unwrap();

    let a_state = graph.state(A).unwrap();
    let r_state = graph.state(B).unwrap();
    assert_eq!(r_state.get(0), a_state.get(511));
    assert_eq!(r_state.get(511), a_state.get(0));
}

#[test]
fn missing_input_is_rejected_with_its_slot() {
    let mut graph = SceneGraph::new();
    graph.insert(A, static_node(1)).unwrap();
    let r = graph.insert(B, Node::Add { a: Some(A), b: Some(99) });
    assert_eq!(r, Err(Error::MissingInput(1)));
    let r = graph.insert(B, Node::Add { a: Some(99), b: Some(A) });
    assert_eq!(r, Err(Error::MissingInput(0)));
    assert!(graph.get(B).is_err());
}

#[test]
fn removing_an_upstream_reads_it_as_zero() {
    let mut graph = pipeline(1, 2);
    let (tx, mut rx) = mpsc::channel(16);
    graph.subscribe(C, tx).unwrap();
    expect_update(&mut rx, 3);

    graph.remove(A).unwrap();
    expect_update(&mut rx, 2);
    expect_silence(&mut rx);

    assert!(graph.get(A).is_err());
    assert!(graph.get(B).is_ok());
    match graph.get(C).unwrap() {
        Node::Add { a, b } => {
            assert_eq!(a, None);
            assert_eq!(b, Some(B));
        },
        other => panic!("node C should still add, got {:?}", other),
    }
    assert_eq!(graph.state(C).unwrap().to_vec(), vec![2u8; 512]);
}

#[test]
fn removing_a_node_closes_its_subscriptions() {
    let mut graph = pipeline(1, 2);
    let (tx, mut rx) = mpsc::channel(16);
    let sid = graph.subscribe(C, tx).unwrap();
    expect_update(&mut rx, 3);

    graph.remove(C).unwrap();
    match rx.try_recv() {
        Ok(GraphUpdate::Closed { id }) => assert_eq!(id, sid),
        other => panic!("expected the subscription to close, got {:?}", other),
    }
    expect_silence(&mut rx);
    assert_eq!(graph.unsubscribe(sid), Err(Error::UnknownSubscription));
}

#[test]
fn reinserting_identical_content_sends_nothing() {
    let mut graph = pipeline(1, 2);
    let (tx, mut rx) = mpsc::channel(16);
    graph.subscribe(C, tx).unwrap();
    expect_update(&mut rx, 3);

    let before = graph.state(C).unwrap();
    graph.insert(B, static_node(2)).unwrap();
    expect_silence(&mut rx);
    assert!(graph.state(C).unwrap().equals(&before));
}

#[test]
fn unsubscribe_restores_silence() {
    let mut graph = pipeline(1, 2);
    let (tx, mut rx) = mpsc::channel(16);
    let sid = graph.subscribe(C, tx).unwrap();
    expect_update(&mut rx, 3);

    graph.unsubscribe(sid).unwrap();
    graph.insert(B, static_node(9)).unwrap();
    expect_silence(&mut rx);
    assert_eq!(graph.unsubscribe(sid), Err(Error::UnknownSubscription));
}

#[test]
fn subscribing_to_a_missing_node_fails() {
    let mut graph = SceneGraph::new();
    let (tx, _rx) = mpsc::channel(4);
    assert_eq!(graph.subscribe(42, tx), Err(Error::UnknownNode));
}

#[test]
fn removing_a_missing_node_fails() {
    let mut graph = SceneGraph::new();
    assert_eq!(graph.remove(42), Err(Error::UnknownNode));
}

#[test]
fn a_full_channel_drops_the_subscription_but_not_the_graph() {
    let mut graph = pipeline(1, 2);
    let (tx, mut rx) = mpsc::channel(1);
    graph.subscribe(C, tx).unwrap();
    // the initial frame fills the one-slot channel; the next change cannot
    // be delivered, so the subscription is dropped
    graph.insert(B, static_node(5)).unwrap();
    expect_update(&mut rx, 3);
    expect_silence(&mut rx);

    // the graph itself keeps working
    graph.insert(B, static_node(7)).unwrap();
    assert_eq!(graph.state(C).unwrap().to_vec(), vec![8u8; 512]);
    expect_silence(&mut rx);
}

#[test]
fn a_closed_channel_refuses_the_subscription() {
    let mut graph = pipeline(1, 2);
    let (tx, rx) = mpsc::channel(4);
    drop(rx);
    let r = graph.subscribe(C, tx);
    assert!(r.is_err());
    // nothing was registered: a later change finds no subscriber to fail on
    graph.insert(B, static_node(5)).unwrap();
}

#[test]
fn unbound_operands_read_as_zero() {
    let mut graph = SceneGraph::new();
    graph.insert(A, static_node(11)).unwrap();
    graph.insert(B, Node::Add { a: Some(A), b: None }).unwrap();
    graph.insert(C, Node::Multiply { a: Some(A), b: None }).unwrap();
    assert_eq!(graph.state(B).unwrap().to_vec(), vec![11u8; 512]);
    assert_eq!(graph.state(C).unwrap().to_vec(), vec![0u8; 512]);
}

#[test]
fn list_enumerates_every_node() {
    let graph = pipeline(1, 2);
    let mut ids: Vec<u128> = graph.list().into_iter().map(|(id, _)| id).collect();
    ids.sort();
    assert_eq!(ids, vec![A, B, C]);
}

#[test]
fn diamond_updates_settle_before_delivery() {
    // D reads A twice through different paths; a change to A must be
    // delivered once, fully settled
    let mut graph = SceneGraph::new();
    graph.insert(A, static_node(1)).unwrap();
    graph.insert(B, Node::Add { a: Some(A), b: None }).unwrap();
    graph.insert(C, Node::Add { a: Some(A), b: Some(B) }).unwrap();
    assert_eq!(graph.state(C).unwrap().to_vec(), vec![2u8; 512]);

    let (tx, mut rx) = mpsc::channel(16);
    graph.subscribe(C, tx).unwrap();
    expect_update(&mut rx, 2);

    graph.insert(A, static_node(5)).unwrap();
    expect_update(&mut rx, 10);
    expect_silence(&mut rx);
}

#[test]
fn longer_cycles_are_rejected_too() {
    let mut graph = SceneGraph::new();
    graph.insert(A, static_node(1)).unwrap();
    graph.insert(B, Node::Add { a: Some(A), b: None }).unwrap();
    graph.insert(C, Node::Add { a: Some(B), b: None }).unwrap();
    // closing A -> B -> C -> A must fail and change nothing
    let r = graph.insert(A, Node::Add { a: Some(C), b: None });
    assert_eq!(r, Err(Error::Cycle));
    match graph.get(A).unwrap() {
        Node::Static { .. } => {},
        other => panic!("node A should still be static, got {:?}", other),
    }
    assert_eq!(graph.state(C).unwrap().to_vec(), vec![1u8; 512]);
}

#[test]
fn identical_inserts_build_identical_states() {
    let build = || {
        let mut graph = SceneGraph::new();
        graph.insert(A, static_node(30)).unwrap();
        graph.insert(B, static_node(40)).unwrap();
        graph.insert(C, Node::Add { a: Some(A), b: Some(B) }).unwrap();
        graph
    };
    let first = build();
    let second = build();
    for id in [A, B, C] {
        assert!(first.state(id).unwrap().equals(&second.state(id).unwrap()));
    }
    assert_eq!(first.state(C).unwrap().to_vec(), vec![70u8; 512]);
}

#[test]
fn inserting_then_removing_a_fresh_node_leaves_no_trace() {
    let mut graph = pipeline(1, 2);
    let extra: u128 = 77;
    graph.insert(extra, Node::Add { a: Some(A), b: Some(C) }).unwrap();
    graph.remove(extra).unwrap();

    assert!(graph.get(extra).is_err());
    assert!(graph.state(extra).is_err());
    let mut ids: Vec<u128> = graph.list().into_iter().map(|(id, _)| id).collect();
    ids.sort();
    assert_eq!(ids, vec![A, B, C]);
    assert_eq!(graph.state(C).unwrap().to_vec(), vec![3u8; 512]);
    match graph.get(C).unwrap() {
        Node::Add { a, b } => {
            assert_eq!(a, Some(A));
            assert_eq!(b, Some(B));
        },
        other => panic!("node C should still add its inputs, got {:?}", other),
    }
    // the pipeline still reacts to changes afterwards
    graph.insert(B, static_node(4)).unwrap();
    assert_eq!(graph.state(C).unwrap().to_vec(), vec![5u8; 512]);
}

#[test]
fn close_all_tells_every_subscriber() {
    let mut graph = pipeline(1, 2);
    let (tx_a, mut rx_a) = mpsc::channel(16);
    let (tx_c, mut rx_c) = mpsc::channel(16);
    let sid_a = graph.subscribe(A, tx_a).unwrap();
    let sid_c = graph.subscribe(C, tx_c).unwrap();
    expect_update(&mut rx_a, 1);
    expect_update(&mut rx_c, 3);

    graph.close_all();
    match rx_a.try_recv() {
        Ok(GraphUpdate::Closed { id }) => assert_eq!(id, sid_a),
        other => panic!("expected the subscription to close, got {:?}", other),
    }
    match rx_c.try_recv() {
        Ok(GraphUpdate::Closed { id }) => assert_eq!(id, sid_c),
        other => panic!("expected the subscription to close, got {:?}", other),
    }
}
