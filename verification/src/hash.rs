//! The hash by which a sealed block is known.

use crate::felt::{be_bytes_of_u64, Felt};
use vstd::prelude::*;

verus! {

/// The digest that `starknet::core::utils::starknet_keccak` gives for a
/// sequence of bytes, as 32 bytes with the most significant first.
pub uninterp spec fn starknet_keccak(data: Seq<u8>) -> Seq<u8>;

/// Calls `starknet::core::utils::starknet_keccak` on the bytes and hands its
/// result back as a word. Trusted, not proved: the result is the digest of
/// the bytes, the same for the same bytes.
#[verifier::external_body]
fn keccak(data: &Vec<u8>) -> (digest: Felt)
    ensures
        digest@ == starknet_keccak(data@),
{
    Felt { bytes: starknet::core::utils::starknet_keccak(data.as_slice()).to_bytes_be() }
}

/// The bytes of a sequence of words, one word after the other.
pub open spec fn bytes_of_words(words: Seq<Felt>) -> Seq<u8>
    decreases words.len(),
{
    if words.len() == 0 {
        Seq::empty()
    } else {
        bytes_of_words(words.drop_last()) + words.last()@
    }
}

/// The bytes that are hashed for a block: its number, its timestamp, the
/// hash of its parent, and the hashes of its transactions in their order.
pub open spec fn block_preimage(
    number: u64,
    timestamp: u64,
    parent_hash: Felt,
    transactions: Seq<Felt>,
) -> Seq<u8> {
    be_bytes_of_u64(number) + be_bytes_of_u64(timestamp) + parent_hash@ + bytes_of_words(
        transactions,
    )
}

/// The bytes of the hash of a block with the given content.
pub open spec fn spec_block_hash(
    number: u64,
    timestamp: u64,
    parent_hash: Felt,
    transactions: Seq<Felt>,
) -> Seq<u8> {
    starknet_keccak(block_preimage(number, timestamp, parent_hash, transactions))
}

/// Appends the 32 bytes of a word to a buffer.
fn push_word(buffer: &mut Vec<u8>, word: &Felt)
    ensures
        final(buffer)@ == old(buffer)@ + word@,
{
    let mut i: usize = 0;
    while i < 32
        invariant
            i <= 32,
            buffer@ == old(buffer)@ + word@.take(i as int),
        decreases 32 - i,
    {
        buffer.push(word.bytes[i]);
        proof {
            assert(word@.take(i + 1) =~= word@.take(i as int).push(word@[i as int]));
            assert(buffer@ =~= old(buffer)@ + word@.take(i + 1));
        }
        i = i + 1;
    }
    proof {
        assert(word@.take(32) =~= word@);
    }
}

/// Computes the hash of a block from its content.
pub fn compute_block_hash(
    number: u64,
    timestamp: u64,
    parent_hash: &Felt,
    transactions: &Vec<Felt>,
) -> (hash: Felt)
    ensures
        hash@ == spec_block_hash(number, timestamp, *parent_hash, transactions@),
{
    let mut buffer: Vec<u8> = Vec::new();
    push_word(&mut buffer, &Felt::from_u64(number));
    push_word(&mut buffer, &Felt::from_u64(timestamp));
    push_word(&mut buffer, parent_hash);
    let ghost head = buffer@;
    assert(head =~= be_bytes_of_u64(number) + be_bytes_of_u64(timestamp) + parent_hash@);
    let mut i: usize = 0;
    while i < transactions.len()
        invariant
            i <= transactions.len(),
            buffer@ == head + bytes_of_words(transactions@.take(i as int)),
        decreases transactions.len() - i,
    {
        push_word(&mut buffer, &transactions[i]);
        proof {
            assert(transactions@.take(i + 1).drop_last() =~= transactions@.take(i as int));
            assert(buffer@ =~= head + bytes_of_words(transactions@.take(i + 1)));
        }
        i = i + 1;
    }
    proof {
        assert(transactions@.take(transactions.len() as int) =~= transactions@);
    }
    keccak(&buffer)
}

} // verus!
