use katana_core::block::{Block, BlockId, BlockStore, InsertError};
use katana_core::felt::Felt;
use katana_core::hash::compute_block_hash;
use katana_core::state::StateDiff;

fn block(number: u64, hash: u64, parent: Felt, timestamp: u64) -> Block {
    Block {
        number,
        hash: Felt::from_u64(hash),
        parent_hash: parent,
        timestamp,
        transactions: vec![Felt::from_u64(hash * 16 + 1), Felt::from_u64(hash * 16 + 2)],
        state_diff: StateDiff::new(),
    }
}

fn store_of_three() -> BlockStore {
    let mut store = BlockStore::new();
    assert_eq!(store.insert(block(0, 0xa0, Felt::zero(), 10)).unwrap(), 0);
    assert_eq!(store.insert(block(1, 0xa1, Felt::from_u64(0xa0), 10)).unwrap(), 1);
    assert_eq!(store.insert(block(2, 0xa2, Felt::from_u64(0xa1), 25)).unwrap(), 2);
    store
}

fn numbers(found: Vec<&Block>) -> Vec<u64> {
    found.iter().map(|b| b.number).collect()
}

#[test]
fn block_hash_is_the_keccak_of_the_block_content() {
    let parent = Felt::from_u64(0xbeef);
    let transactions = vec![Felt::from_u64(0x6969), Felt::from_u64(0x1234)];
    let hash = compute_block_hash(7, 1_700_000_123, &parent, &transactions);

    let mut preimage: Vec<u8> = Vec::new();
    preimage.extend_from_slice(&[0u8; 24]);
    preimage.extend_from_slice(&7u64.to_be_bytes());
    preimage.extend_from_slice(&[0u8; 24]);
    preimage.extend_from_slice(&1_700_000_123u64.to_be_bytes());
    preimage.extend_from_slice(&parent.to_bytes_be());
    for transaction in &transactions {
        preimage.extend_from_slice(&transaction.to_bytes_be());
    }
    assert_eq!(preimage.len(), 5 * 32);
    let expected = starknet::core::utils::starknet_keccak(&preimage);
    assert_eq!(hash.to_bytes_be(), expected.to_bytes_be());
    assert_ne!(hash.to_bytes_be().to_vec(), preimage[..32].to_vec());
}

#[test]
fn block_hash_depends_on_every_part_of_the_content() {
    let parent = Felt::from_u64(1);
    let transactions = vec![Felt::from_u64(2)];
    let hash = compute_block_hash(3, 4, &parent, &transactions);
    assert_eq!(hash, compute_block_hash(3, 4, &parent, &transactions));
    assert_ne!(hash, compute_block_hash(4, 4, &parent, &transactions));
    assert_ne!(hash, compute_block_hash(3, 5, &parent, &transactions));
    assert_ne!(hash, compute_block_hash(3, 4, &Felt::from_u64(2), &transactions));
    assert_ne!(hash, compute_block_hash(3, 4, &parent, &Vec::new()));
    assert_ne!(hash, compute_block_hash(3, 4, &parent, &vec![Felt::from_u64(2), Felt::zero()]));
}

#[test]
fn hash_of_an_empty_first_block_fits_in_250_bits() {
    let expected = starknet::core::utils::starknet_keccak(&[0u8; 96]);
    let hash = compute_block_hash(0, 0, &Felt::zero(), &Vec::new());
    assert_eq!(hash.to_bytes_be(), expected.to_bytes_be());
    assert!(hash.to_bytes_be()[0] <= 3);
}

#[test]
fn blocks_are_found_by_number_and_by_hash() {
    let store = store_of_three();
    assert_eq!(store.len(), 3);
    assert_eq!(store.by_number(1).unwrap().hash, Felt::from_u64(0xa1));
    assert!(store.by_number(3).is_none());
    assert_eq!(store.by_hash(&Felt::from_u64(0xa2)).unwrap().number, 2);
    assert!(store.by_hash(&Felt::from_u64(0xa3)).is_none());
    assert_eq!(store.number_of(&Felt::from_u64(0xa0)), Some(0));
    assert_eq!(store.number_of(&Felt::from_u64(0xff)), None);
    assert_eq!(store.block(BlockId::Number(2)).unwrap().hash, Felt::from_u64(0xa2));
    assert_eq!(store.block(BlockId::Hash(Felt::from_u64(0xa0))).unwrap().number, 0);
    assert_eq!(store.latest().unwrap().number, 2);
    assert!(BlockStore::new().latest().is_none());
}

#[test]
fn every_sealed_block_is_indexed_under_its_number_and_its_hash() {
    let store = store_of_three();
    for number in 0..3u64 {
        let by_number = store.by_number(number).unwrap();
        assert_eq!(by_number.number, number);
        assert_eq!(store.number_of(&by_number.hash), Some(number));
        assert_eq!(store.by_hash(&by_number.hash).unwrap().number, number);
    }
}

#[test]
fn blocks_in_range_are_the_sealed_blocks_with_those_numbers() {
    let store = store_of_three();
    assert_eq!(numbers(store.blocks_in_range(0..=2)), vec![0, 1, 2]);
    assert_eq!(numbers(store.blocks_in_range(1..=1)), vec![1]);
    assert_eq!(numbers(store.blocks_in_range(1..=100)), vec![1, 2]);
    assert_eq!(numbers(store.blocks_in_range(0..=u64::MAX)), vec![0, 1, 2]);
    assert_eq!(numbers(store.blocks_in_range(3..=5)), Vec::<u64>::new());
    assert_eq!(numbers(store.blocks_in_range(2..=1)), Vec::<u64>::new());
    assert_eq!(numbers(BlockStore::new().blocks_in_range(0..=10)), Vec::<u64>::new());
}

#[test]
fn range_that_was_iterated_to_its_end_holds_no_block() {
    let store = store_of_three();
    let mut range = 1..=2u64;
    assert_eq!(range.next(), Some(1));
    assert_eq!(numbers(store.blocks_in_range(range.clone())), vec![2]);
    assert_eq!(range.next(), Some(2));
    assert_eq!(range.next(), None);
    assert_eq!(numbers(store.blocks_in_range(range)), Vec::<u64>::new());
}

#[test]
fn block_with_wrong_number_is_handed_back() {
    let mut store = store_of_three();
    let refused = store.insert(block(4, 0xa4, Felt::from_u64(0xa2), 30)).unwrap_err();
    assert_eq!(refused.reason, InsertError::NumberMismatch);
    assert_eq!(refused.block.hash, Felt::from_u64(0xa4));
    assert_eq!(store.len(), 3);
    assert!(store.by_hash(&Felt::from_u64(0xa4)).is_none());
}

#[test]
fn block_with_wrong_parent_is_handed_back() {
    let mut store = store_of_three();
    let refused = store.insert(block(3, 0xa3, Felt::from_u64(0xa1), 30)).unwrap_err();
    assert_eq!(refused.reason, InsertError::ParentMismatch);
    let mut empty = BlockStore::new();
    let refused = empty.insert(block(0, 0xa0, Felt::from_u64(1), 0)).unwrap_err();
    assert_eq!(refused.reason, InsertError::ParentMismatch);
}

#[test]
fn block_older_than_the_latest_is_handed_back() {
    let mut store = store_of_three();
    let refused = store.insert(block(3, 0xa3, Felt::from_u64(0xa2), 24)).unwrap_err();
    assert_eq!(refused.reason, InsertError::TimestampRegression);
    assert_eq!(store.insert(block(3, 0xa3, Felt::from_u64(0xa2), 25)).unwrap(), 3);
}

#[test]
fn block_with_a_sealed_hash_is_handed_back() {
    let mut store = store_of_three();
    let refused = store.insert(block(3, 0xa1, Felt::from_u64(0xa2), 30)).unwrap_err();
    assert_eq!(refused.reason, InsertError::DuplicateHash);
    assert_eq!(store.len(), 3);
    assert_eq!(store.by_hash(&Felt::from_u64(0xa1)).unwrap().number, 1);
}
