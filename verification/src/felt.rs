//! The 256-bit word in which the chain stores hashes, addresses, storage keys
//! and storage values.

use crate::keymap::Key;
use vstd::prelude::*;

verus! {

/// A 256-bit word, held as 32 bytes with the most significant byte first.
#[derive(Clone, Copy, Debug, PartialEq, Eq)]
pub struct Felt {
    pub bytes: [u8; 32],
}

/// The byte of `n` that stands at `index` among its eight bytes, most
/// significant first.
pub open spec fn be_byte(n: u64, index: int) -> u8 {
    ((n >> (((7 - index) * 8) as u64)) & 0xff) as u8
}

/// The 32 bytes that stand for the number `n`: 24 zero bytes, then the eight
/// bytes of `n`, most significant first.
pub open spec fn be_bytes_of_u64(n: u64) -> Seq<u8> {
    Seq::new(32, |i: int| if i < 24 { 0u8 } else { be_byte(n, i - 24) })
}

/// The number that the last eight of 32 bytes spell, most significant first.
pub open spec fn low_u64_of(bytes: Seq<u8>) -> u64 {
    (bytes[24] as u64) << 56 | (bytes[25] as u64) << 48 | (bytes[26] as u64) << 40
        | (bytes[27] as u64) << 32 | (bytes[28] as u64) << 24 | (bytes[29] as u64) << 16
        | (bytes[30] as u64) << 8 | (bytes[31] as u64)
}

impl View for Felt {
    type V = Seq<u8>;

    open spec fn view(&self) -> Seq<u8> {
        self.bytes@
    }
}

impl Felt {
    /// The word whose bytes are all zero: the value of everything unset.
    pub open spec fn spec_zero() -> Felt {
        Felt {
            bytes: [
                0u8, 0u8, 0u8, 0u8, 0u8, 0u8, 0u8, 0u8,
                0u8, 0u8, 0u8, 0u8, 0u8, 0u8, 0u8, 0u8,
                0u8, 0u8, 0u8, 0u8, 0u8, 0u8, 0u8, 0u8,
                0u8, 0u8, 0u8, 0u8, 0u8, 0u8, 0u8, 0u8,
            ],
        }
    }

    /// The word that stands for the number `n`.
    pub open spec fn spec_from_u64(n: u64) -> Felt {
        Felt {
            bytes: [
                0u8, 0u8, 0u8, 0u8, 0u8, 0u8, 0u8, 0u8,
                0u8, 0u8, 0u8, 0u8, 0u8, 0u8, 0u8, 0u8,
                0u8, 0u8, 0u8, 0u8, 0u8, 0u8, 0u8, 0u8,
                be_byte(n, 0), be_byte(n, 1), be_byte(n, 2), be_byte(n, 3),
                be_byte(n, 4), be_byte(n, 5), be_byte(n, 6), be_byte(n, 7),
            ],
        }
    }

    /// The number spelled by the eight least significant bytes.
    pub open spec fn spec_low_u64(&self) -> u64 {
        low_u64_of(self@)
    }

    /// Whether the 24 most significant bytes are zero, so that the word is a
    /// number below 2^64.
    pub open spec fn spec_fits_u64(&self) -> bool {
        forall|i: int| 0 <= i < 24 ==> self@[i] == 0
    }

    /// The zero word.
    pub fn zero() -> (felt: Felt)
        ensures
            felt == Felt::spec_zero(),
            forall|i: int| 0 <= i < 32 ==> felt@[i] == 0,
    {
        Felt {
            bytes: [
                0u8, 0u8, 0u8, 0u8, 0u8, 0u8, 0u8, 0u8,
                0u8, 0u8, 0u8, 0u8, 0u8, 0u8, 0u8, 0u8,
                0u8, 0u8, 0u8, 0u8, 0u8, 0u8, 0u8, 0u8,
                0u8, 0u8, 0u8, 0u8, 0u8, 0u8, 0u8, 0u8,
            ],
        }
    }

    /// The word with the given bytes, most significant first.
    pub fn from_bytes_be(bytes: [u8; 32]) -> (felt: Felt)
        ensures
            felt.bytes == bytes,
            felt@ == bytes@,
    {
        Felt { bytes }
    }

    /// The bytes of the word, most significant first.
    pub fn to_bytes_be(&self) -> (bytes: [u8; 32])
        ensures
            bytes == self.bytes,
            bytes@ == self@,
    {
        self.bytes
    }

    /// The word that stands for the number `n`.
    pub fn from_u64(n: u64) -> (felt: Felt)
        ensures
            felt == Felt::spec_from_u64(n),
            felt@ == be_bytes_of_u64(n),
    {
        let b0: u8 = ((n >> 56) & 0xff) as u8;
        let b1: u8 = ((n >> 48) & 0xff) as u8;
        let b2: u8 = ((n >> 40) & 0xff) as u8;
        let b3: u8 = ((n >> 32) & 0xff) as u8;
        let b4: u8 = ((n >> 24) & 0xff) as u8;
        let b5: u8 = ((n >> 16) & 0xff) as u8;
        let b6: u8 = ((n >> 8) & 0xff) as u8;
        let b7: u8 = ((n >> 0) & 0xff) as u8;
        let felt = Felt {
            bytes: [
                0u8, 0u8, 0u8, 0u8, 0u8, 0u8, 0u8, 0u8,
                0u8, 0u8, 0u8, 0u8, 0u8, 0u8, 0u8, 0u8,
                0u8, 0u8, 0u8, 0u8, 0u8, 0u8, 0u8, 0u8,
                b0, b1, b2, b3, b4, b5, b6, b7,
            ],
        };
        assert(felt@ =~= be_bytes_of_u64(n));
        assert(felt.bytes =~= Felt::spec_from_u64(n).bytes);
        felt
    }

    /// The number spelled by the eight least significant bytes.
    pub fn low_u64(&self) -> (n: u64)
        ensures
            n == self.spec_low_u64(),
    {
        let b = &self.bytes;
        (b[24] as u64) << 56 | (b[25] as u64) << 48 | (b[26] as u64) << 40 | (b[27] as u64) << 32
            | (b[28] as u64) << 24 | (b[29] as u64) << 16 | (b[30] as u64) << 8 | (b[31] as u64)
    }

    /// The number that the word stands for, where it is below 2^64.
    pub fn to_u64(&self) -> (n: Option<u64>)
        ensures
            n == if self.spec_fits_u64() {
                Some(self.spec_low_u64())
            } else {
                None
            },
    {
        let mut i: usize = 0;
        while i < 24
            invariant
                i <= 24,
                forall|j: int| 0 <= j < i ==> self@[j] == 0,
            decreases 24 - i,
        {
            if self.bytes[i] != 0 {
                return None;
            }
            i = i + 1;
        }
        Some(self.low_u64())
    }

    /// Whether the two words are the same word.
    pub fn equals(&self, other: &Felt) -> (equal: bool)
        ensures
            equal == (*self == *other),
    {
        let mut i: usize = 0;
        while i < 32
            invariant
                i <= 32,
                forall|j: int| 0 <= j < i ==> self.bytes[j] == other.bytes[j],
            decreases 32 - i,
        {
            if self.bytes[i] != other.bytes[i] {
                return false;
            }
            i = i + 1;
        }
        assert(self.bytes =~= other.bytes);
        true
    }

    /// Whether every byte of the word is zero.
    pub fn is_zero(&self) -> (zero: bool)
        ensures
            zero == (*self == Felt::spec_zero()),
    {
        self.equals(&Felt::zero())
    }
}

impl Key for Felt {
    /// A word is filed by the number in its eight least significant bytes.
    open spec fn spec_fingerprint(&self) -> u64 {
        self.spec_low_u64()
    }

    fn fingerprint(&self) -> (f: u64) {
        self.low_u64()
    }

    fn same(&self, other: &Self) -> (b: bool) {
        self.equals(other)
    }
}

impl Default for Felt {
    fn default() -> (felt: Felt)
        ensures
            felt == Felt::spec_zero(),
    {
        Felt::zero()
    }
}

/// Two words are the same word exactly when their bytes agree.
pub proof fn lemma_felt_equal_by_bytes(a: Felt, b: Felt)
    ensures
        (a == b) <==> (a@ == b@),
{
    if a@ == b@ {
        assert(a.bytes =~= b.bytes);
    }
}

/// A number put into a word comes back out of it unchanged, so distinct
/// numbers give distinct words.
pub proof fn lemma_from_u64_round_trip(n: u64)
    ensures
        Felt::spec_from_u64(n).spec_fits_u64(),
        Felt::spec_from_u64(n).spec_low_u64() == n,
{
    let f = Felt::spec_from_u64(n);
    let b0 = be_byte(n, 0);
    let b1 = be_byte(n, 1);
    let b2 = be_byte(n, 2);
    let b3 = be_byte(n, 3);
    let b4 = be_byte(n, 4);
    let b5 = be_byte(n, 5);
    let b6 = be_byte(n, 6);
    let b7 = be_byte(n, 7);
    assert(f@[24] == b0 && f@[25] == b1 && f@[26] == b2 && f@[27] == b3);
    assert(f@[28] == b4 && f@[29] == b5 && f@[30] == b6 && f@[31] == b7);
    assert((((n >> 56u64) & 0xff) as u8 as u64) << 56 | (((n >> 48u64) & 0xff) as u8 as u64) << 48
        | (((n >> 40u64) & 0xff) as u8 as u64) << 40 | (((n >> 32u64) & 0xff) as u8 as u64) << 32
        | (((n >> 24u64) & 0xff) as u8 as u64) << 24 | (((n >> 16u64) & 0xff) as u8 as u64) << 16
        | (((n >> 8u64) & 0xff) as u8 as u64) << 8 | (((n >> 0u64) & 0xff) as u8 as u64) == n)
        by (bit_vector);
}

} // verus!
