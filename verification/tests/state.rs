use katana_core::felt::Felt;
use katana_core::state::{ClassDefinition, CompiledClass, LayeredState, StateDiff, StorageSlot};

fn slot(address: u64, key: u64) -> StorageSlot {
    StorageSlot { address: Felt::from_u64(address), key: Felt::from_u64(key) }
}

fn diff_of_everything() -> StateDiff {
    let mut diff = StateDiff::new();
    diff.storage_updates.push((slot(1, 1), Felt::from_u64(11)));
    diff.storage_updates.push((slot(1, 2), Felt::from_u64(12)));
    diff.nonce_updates.push((Felt::from_u64(1), Felt::from_u64(5)));
    diff.deployed_contracts.push((Felt::from_u64(1), Felt::from_u64(0xc0de)));
    diff.declared_classes.push((Felt::from_u64(0xc0de), Felt::from_u64(0xca5e)));
    diff
}

#[test]
fn what_was_never_set_is_zero_or_nothing() {
    let state = LayeredState::new();
    assert_eq!(state.storage(Felt::from_u64(1), Felt::from_u64(1)), Felt::zero());
    assert_eq!(state.committed_storage(Felt::from_u64(1), Felt::from_u64(1)), Felt::zero());
    assert_eq!(state.nonce(Felt::from_u64(1)), Felt::zero());
    assert_eq!(state.class_hash_of_contract(Felt::from_u64(1)), None);
    assert_eq!(state.compiled_class_hash_of_class_hash(Felt::from_u64(0xc0de)), None);
    assert!(state.class(Felt::from_u64(0xc0de)).is_none());
}

#[test]
fn applied_diff_is_seen_and_not_committed() {
    let mut state = LayeredState::new();
    state.apply_diff(&diff_of_everything());
    assert_eq!(state.storage(Felt::from_u64(1), Felt::from_u64(1)), Felt::from_u64(11));
    assert_eq!(state.storage(Felt::from_u64(1), Felt::from_u64(2)), Felt::from_u64(12));
    assert_eq!(state.storage(Felt::from_u64(2), Felt::from_u64(1)), Felt::zero());
    assert_eq!(state.committed_storage(Felt::from_u64(1), Felt::from_u64(1)), Felt::zero());
    assert_eq!(state.nonce(Felt::from_u64(1)), Felt::from_u64(5));
    assert_eq!(state.class_hash_of_contract(Felt::from_u64(1)), Some(Felt::from_u64(0xc0de)));
    assert_eq!(
        state.compiled_class_hash_of_class_hash(Felt::from_u64(0xc0de)),
        Some(Felt::from_u64(0xca5e))
    );
}

#[test]
fn commit_moves_the_pending_layer_into_the_base() {
    let mut state = LayeredState::new();
    state.apply_diff(&diff_of_everything());
    state.commit();
    assert_eq!(state.committed_storage(Felt::from_u64(1), Felt::from_u64(1)), Felt::from_u64(11));
    assert_eq!(state.storage(Felt::from_u64(1), Felt::from_u64(1)), Felt::from_u64(11));
    assert_eq!(state.nonce(Felt::from_u64(1)), Felt::from_u64(5));

    let mut later = StateDiff::new();
    later.storage_updates.push((slot(1, 1), Felt::from_u64(99)));
    state.apply_diff(&later);
    assert_eq!(state.storage(Felt::from_u64(1), Felt::from_u64(1)), Felt::from_u64(99));
    assert_eq!(state.committed_storage(Felt::from_u64(1), Felt::from_u64(1)), Felt::from_u64(11));
    assert_eq!(state.storage(Felt::from_u64(1), Felt::from_u64(2)), Felt::from_u64(12));
    state.commit();
    assert_eq!(state.committed_storage(Felt::from_u64(1), Felt::from_u64(1)), Felt::from_u64(99));
}

#[test]
fn later_entry_of_a_diff_wins() {
    let mut state = LayeredState::new();
    let mut diff = StateDiff::new();
    diff.storage_updates.push((slot(7, 7), Felt::from_u64(1)));
    diff.storage_updates.push((slot(7, 7), Felt::from_u64(2)));
    state.apply_diff(&diff);
    assert_eq!(state.storage(Felt::from_u64(7), Felt::from_u64(7)), Felt::from_u64(2));
}

#[test]
fn value_written_as_zero_reads_zero() {
    let mut state = LayeredState::new();
    state.apply_diff(&diff_of_everything());
    state.commit();
    let mut diff = StateDiff::new();
    diff.storage_updates.push((slot(1, 1), Felt::zero()));
    state.apply_diff(&diff);
    assert_eq!(state.storage(Felt::from_u64(1), Felt::from_u64(1)), Felt::zero());
    assert_eq!(state.committed_storage(Felt::from_u64(1), Felt::from_u64(1)), Felt::from_u64(11));
}

#[test]
fn declared_class_is_kept_under_its_hash() {
    let mut state = LayeredState::new();
    state.declare_class(ClassDefinition {
        class_hash: Felt::from_u64(0xc0de),
        class: CompiledClass { bytes: vec![1, 2, 3] },
    });
    assert_eq!(state.class(Felt::from_u64(0xc0de)).unwrap().bytes, vec![1, 2, 3]);
    assert!(state.class(Felt::from_u64(0xc0df)).is_none());
    state.commit();
    assert_eq!(state.class(Felt::from_u64(0xc0de)).unwrap().bytes, vec![1, 2, 3]);
}

#[test]
fn diffs_are_joined_in_their_order() {
    let mut first = diff_of_everything();
    let mut second = StateDiff::new();
    second.storage_updates.push((slot(1, 1), Felt::from_u64(1)));
    second.nonce_updates.push((Felt::from_u64(1), Felt::from_u64(6)));
    first.extend(second);
    assert_eq!(first.storage_updates.len(), 3);
    assert_eq!(first.storage_updates[2].1, Felt::from_u64(1));
    assert_eq!(first.nonce_updates.len(), 2);
    assert_eq!(first.deployed_contracts.len(), 1);
    assert_eq!(first.declared_classes.len(), 1);
    let mut state = LayeredState::new();
    state.apply_diff(&first);
    assert_eq!(state.storage(Felt::from_u64(1), Felt::from_u64(1)), Felt::from_u64(1));
    assert_eq!(state.nonce(Felt::from_u64(1)), Felt::from_u64(6));
}
