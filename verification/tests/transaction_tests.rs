use std::collections::HashMap;
use cbmix::transaction::Transaction;
use cbmix::maplike::MapLike;
use cbmix::config::default_shutdown_grace_period;
use cbmix::message::{error_message, MessageKind};

#[test]
fn reads_fall_through_to_the_base() {
    let mut base: HashMap<u128, u64> = HashMap::new();
    base.insert(1, 10);
    let tx: Transaction<u64> = Transaction::new();
    assert_eq!(tx.get(&base, 1), Some(&10));
    assert_eq!(tx.get(&base, 2), None);
}

#[test]
fn writes_stay_in_the_overlay_until_commit() {
    let mut base: HashMap<u128, u64> = HashMap::new();
    base.insert(1, 10);
    let mut tx: Transaction<u64> = Transaction::new();
    tx.insert(1, 11);
    tx.insert(2, 22);

    assert_eq!(tx.get(&base, 1), Some(&11));
    assert_eq!(tx.get(&base, 2), Some(&22));
    assert_eq!(base.get(&1), Some(&10));
    assert_eq!(base.get(&2), None);

    tx.commit(&mut base);
    assert_eq!(base.get(&1), Some(&11));
    assert_eq!(base.get(&2), Some(&22));
}

#[test]
fn dropping_a_transaction_leaves_the_base_alone() {
    let mut base: HashMap<u128, u64> = HashMap::new();
    base.insert(1, 10);
    {
        let mut tx: Transaction<u64> = Transaction::new();
        tx.insert(1, 99);
        tx.insert(7, 77);
    }
    assert_eq!(base.get(&1), Some(&10));
    assert_eq!(base.get(&7), None);
    assert_eq!(base.len(), 1);
}

#[test]
fn get_mut_copies_lazily_and_never_touches_the_base() {
    let mut base: HashMap<u128, u64> = HashMap::new();
    base.insert(1, 10);
    let mut tx: Transaction<u64> = Transaction::new();

    match tx.get_mut(&base, 1) {
        Some(entry) => {
            assert_eq!(*entry, 10);
            *entry = 40;
        },
        None => panic!("key 1 should be visible through the overlay"),
    }
    assert_eq!(tx.get(&base, 1), Some(&40));
    assert_eq!(base.get(&1), Some(&10));
    assert!(tx.get_mut(&base, 5).is_none());

    tx.commit(&mut base);
    assert_eq!(base.get(&1), Some(&40));
}

#[test]
fn maplike_reads_a_plain_table() {
    let mut base: HashMap<u128, u64> = HashMap::new();
    base.insert(3, 33);
    assert!(MapLike::contains(&base, 3));
    assert!(!MapLike::contains(&base, 4));
    assert_eq!(MapLike::get(&base, 3), Some(&33));
}

#[test]
fn error_messages_echo_the_sequence_number() {
    let m = error_message(17, String::from("no such node"));
    assert_eq!(m.kind, MessageKind::ResponseError);
    assert_eq!(m.seq, Some(17));
    assert!(m.name.is_none());
    assert_eq!(m.body.as_deref(), Some("no such node"));
}

#[test]
fn shutdown_grace_defaults_to_thirty_seconds() {
    assert_eq!(default_shutdown_grace_period(), 30);
}
