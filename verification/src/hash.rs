//! 256-bit digests.

use vstd::prelude::*;
use vstd::std_specs::convert::FromSpecImpl;

verus! {

/// A 256-bit digest, held as four 64-bit words, most significant first.
///
/// Two digests are equal exactly when their four words are equal.
#[derive(Clone, Copy, Debug, PartialEq, Eq, Hash, Structural)]
pub struct H256 {
    pub w0: u64,
    pub w1: u64,
    pub w2: u64,
    pub w3: u64,
}

impl H256 {
    /// The digest made of the four given words.
    pub fn new(w0: u64, w1: u64, w2: u64, w3: u64) -> (r: H256)
        ensures
            r == (H256 { w0, w1, w2, w3 }),
    {
        H256 { w0, w1, w2, w3 }
    }

    /// The all-zero digest.
    pub fn zero() -> (r: H256)
        ensures
            r == (H256 { w0: 0, w1: 0, w2: 0, w3: 0 }),
    {
        H256 { w0: 0, w1: 0, w2: 0, w3: 0 }
    }

    /// Word `index` of the digest, counted from the most significant one.
    pub open spec fn word(self, index: int) -> u64 {
        if index == 0 {
            self.w0
        } else if index == 1 {
            self.w1
        } else if index == 2 {
            self.w2
        } else {
            self.w3
        }
    }

    /// The 32 bytes of the digest, the most significant byte first.
    pub open spec fn bytes(self) -> Seq<u8> {
        Seq::new(32, |i: int| byte_of(self.word(i / 8), i % 8))
    }

    /// The digest with the given 32 bytes, the most significant byte first.
    pub fn from_bytes(bytes: &[u8; 32]) -> (r: H256)
        ensures
            r.bytes() == bytes@,
    {
        let r = H256 {
            w0: word_from_bytes(bytes, 0),
            w1: word_from_bytes(bytes, 8),
            w2: word_from_bytes(bytes, 16),
            w3: word_from_bytes(bytes, 24),
        };
        assert(r.bytes() =~= bytes@) by {
            assert forall|i: int| 0 <= i < 32 implies r.bytes()[i] == bytes@[i] by {
                assert(bytes@[(i / 8) * 8 + i % 8] == bytes@[i]);
            }
        }
        r
    }

    /// The 32 bytes of the digest, the most significant byte first.
    pub fn to_bytes(&self) -> (r: [u8; 32])
        ensures
            r@ == self.bytes(),
    {
        let mut bytes: [u8; 32] = [0u8; 32];
        let mut i: usize = 0;
        while i < 32
            invariant
                i <= 32,
                forall|k: int| 0 <= k < i ==> bytes@[k] == self.bytes()[k],
            decreases 32 - i,
        {
            let word = if i / 8 == 0 {
                self.w0
            } else if i / 8 == 1 {
                self.w1
            } else if i / 8 == 2 {
                self.w2
            } else {
                self.w3
            };
            let shift: u64 = (8 * (7 - i % 8)) as u64;
            assert((word >> shift) & 0xff <= 0xff) by (bit_vector);
            bytes[i] = ((word >> shift) & 0xff) as u8;
            i += 1;
        }
        assert(bytes@ =~= self.bytes());
        bytes
    }
}

/// Byte `index` of `word`, counted from the most significant one.
pub open spec fn byte_of(word: u64, index: int) -> u8 {
    ((word >> ((8 * (7 - index)) as u64)) & 0xff) as u8
}

/// The word made of eight bytes, the most significant byte first.
pub open spec fn word_of(b0: u8, b1: u8, b2: u8, b3: u8, b4: u8, b5: u8, b6: u8, b7: u8) -> u64 {
    (b0 as u64) << 56 | (b1 as u64) << 48 | (b2 as u64) << 40 | (b3 as u64) << 32 | (b4 as u64)
        << 24 | (b5 as u64) << 16 | (b6 as u64) << 8 | (b7 as u64)
}

/// A word made of eight bytes has these bytes.
pub proof fn lemma_bytes_of_word(b0: u8, b1: u8, b2: u8, b3: u8, b4: u8, b5: u8, b6: u8, b7: u8)
    ensures
        byte_of(word_of(b0, b1, b2, b3, b4, b5, b6, b7), 0) == b0,
        byte_of(word_of(b0, b1, b2, b3, b4, b5, b6, b7), 1) == b1,
        byte_of(word_of(b0, b1, b2, b3, b4, b5, b6, b7), 2) == b2,
        byte_of(word_of(b0, b1, b2, b3, b4, b5, b6, b7), 3) == b3,
        byte_of(word_of(b0, b1, b2, b3, b4, b5, b6, b7), 4) == b4,
        byte_of(word_of(b0, b1, b2, b3, b4, b5, b6, b7), 5) == b5,
        byte_of(word_of(b0, b1, b2, b3, b4, b5, b6, b7), 6) == b6,
        byte_of(word_of(b0, b1, b2, b3, b4, b5, b6, b7), 7) == b7,
{
    let w = word_of(b0, b1, b2, b3, b4, b5, b6, b7);
    assert((w >> 56u64) & 0xff == b0 as u64 && (w >> 48u64) & 0xff == b1 as u64 && (w >> 40u64)
        & 0xff == b2 as u64 && (w >> 32u64) & 0xff == b3 as u64 && (w >> 24u64) & 0xff
        == b4 as u64 && (w >> 16u64) & 0xff == b5 as u64 && (w >> 8u64) & 0xff == b6 as u64 && (w
        >> 0u64) & 0xff == b7 as u64) by (bit_vector)
        requires
            w == (b0 as u64) << 56 | (b1 as u64) << 48 | (b2 as u64) << 40 | (b3 as u64) << 32 | (
            b4 as u64) << 24 | (b5 as u64) << 16 | (b6 as u64) << 8 | (b7 as u64),
    ;
}

/// A word is made of its eight bytes.
pub proof fn lemma_word_of_bytes(word: u64)
    ensures
        word == word_of(
            byte_of(word, 0),
            byte_of(word, 1),
            byte_of(word, 2),
            byte_of(word, 3),
            byte_of(word, 4),
            byte_of(word, 5),
            byte_of(word, 6),
            byte_of(word, 7),
        ),
{
    assert(word == (((word >> 56u64) & 0xff) as u8 as u64) << 56 | (((word >> 48u64)
        & 0xff) as u8 as u64) << 48 | (((word >> 40u64) & 0xff) as u8 as u64) << 40 | (((word
        >> 32u64) & 0xff) as u8 as u64) << 32 | (((word >> 24u64) & 0xff) as u8 as u64) << 24 | (((
    word >> 16u64) & 0xff) as u8 as u64) << 16 | (((word >> 8u64) & 0xff) as u8 as u64) << 8 | (((
    word >> 0u64) & 0xff) as u8 as u64)) by (bit_vector);
}

/// Two digests with the same bytes are the same digest.
pub proof fn lemma_bytes_injective(a: H256, b: H256)
    requires
        a.bytes() == b.bytes(),
    ensures
        a == b,
{
    assert forall|w: int| 0 <= w < 4 implies a.word(w) == b.word(w) by {
        lemma_word_of_bytes(a.word(w));
        lemma_word_of_bytes(b.word(w));
        assert forall|k: int| 0 <= k < 8 implies byte_of(a.word(w), k) == byte_of(b.word(w), k) by {
            assert(a.bytes()[w * 8 + k] == byte_of(a.word((w * 8 + k) / 8), (w * 8 + k) % 8));
            assert(b.bytes()[w * 8 + k] == byte_of(b.word((w * 8 + k) / 8), (w * 8 + k) % 8));
        }
    }
    assert(a.word(0) == b.word(0) && a.word(1) == b.word(1) && a.word(2) == b.word(2) && a.word(3)
        == b.word(3));
}

fn word_from_bytes(bytes: &[u8; 32], at: usize) -> (r: u64)
    requires
        at + 8 <= 32,
    ensures
        forall|k: int| 0 <= k < 8 ==> byte_of(r, k) == #[trigger] bytes@[at + k],
{
    proof {
        lemma_bytes_of_word(
            bytes@[at + 0],
            bytes@[at + 1],
            bytes@[at + 2],
            bytes@[at + 3],
            bytes@[at + 4],
            bytes@[at + 5],
            bytes@[at + 6],
            bytes@[at + 7],
        );
    }
    (bytes[at] as u64) << 56 | (bytes[at + 1] as u64) << 48 | (bytes[at + 2] as u64) << 40 | (
    bytes[at + 3] as u64) << 32 | (bytes[at + 4] as u64) << 24 | (bytes[at + 5] as u64) << 16 | (
    bytes[at + 6] as u64) << 8 | (bytes[at + 7] as u64)
}

impl From<u8> for H256 {
    /// The digest whose first byte is `byte` and whose other bytes are zero.
    fn from(byte: u8) -> (r: H256) {
        proof {
            assert((byte as u64) << 56 == (byte as u64) * 0x100_0000_0000_0000) by (bit_vector);
        }
        H256 { w0: (byte as u64) << 56, w1: 0, w2: 0, w3: 0 }
    }
}

impl FromSpecImpl<u8> for H256 {
    open spec fn obeys_from_spec() -> bool {
        true
    }

    open spec fn from_spec(byte: u8) -> H256 {
        H256 { w0: ((byte as u64) * 0x100_0000_0000_0000) as u64, w1: 0, w2: 0, w3: 0 }
    }
}

} // verus!
