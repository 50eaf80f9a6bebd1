//! The boundary to the external bit-level packing format.
//!
//! A bit-packed payload travels on disk as bytes, most significant bit of
//! each byte first, the last byte padded with zero bits. The conversions
//! between bytes and bit sequences are performed by an outside crate and
//! trusted against the exact byte/bit correspondence written out here as
//! spec functions.

use bit_vec::BitVec;
use vstd::prelude::*;

verus! {

#[verifier::external_type_specification]
#[verifier::external_body]
#[verifier::reject_recursive_types(B)]
pub struct ExBitVec<B>(BitVec<B>);

/// The sequence of bits that a bit vector holds, in order.
pub uninterp spec fn bit_vec_bits(b: BitVec) -> Seq<bool>;

/// Bit `k` of a byte, counting the most significant bit as bit 0.
pub open spec fn byte_bit(b: u8, k: int) -> bool {
    (b >> (7 - k) as u8) & 1 == 1
}

/// The bits of `bytes`, eight per byte, most significant first.
pub open spec fn bits_of_bytes(bytes: Seq<u8>) -> Seq<bool> {
    Seq::new(bytes.len() * 8, |i: int| byte_bit(bytes[i / 8], i % 8))
}

/// Whether position `i` of `bits` holds a set bit; positions past the end
/// count as unset, which models zero padding.
pub open spec fn bit_at(bits: Seq<bool>, i: int) -> bool {
    i < bits.len() && bits[i]
}

/// The byte assembled from positions `8j` to `8j + 7` of `bits`, most
/// significant bit first, missing positions padded with zero.
pub open spec fn bits_byte(bits: Seq<bool>, j: int) -> u8 {
    (if bit_at(bits, 8 * j) {
        0x80u8
    } else {
        0u8
    }) | (if bit_at(bits, 8 * j + 1) {
        0x40u8
    } else {
        0u8
    }) | (if bit_at(bits, 8 * j + 2) {
        0x20u8
    } else {
        0u8
    }) | (if bit_at(bits, 8 * j + 3) {
        0x10u8
    } else {
        0u8
    }) | (if bit_at(bits, 8 * j + 4) {
        0x08u8
    } else {
        0u8
    }) | (if bit_at(bits, 8 * j + 5) {
        0x04u8
    } else {
        0u8
    }) | (if bit_at(bits, 8 * j + 6) {
        0x02u8
    } else {
        0u8
    }) | (if bit_at(bits, 8 * j + 7) {
        0x01u8
    } else {
        0u8
    })
}

/// The bytes of `bits`, eight bits per byte, most significant first, the
/// last byte padded with zero bits.
pub open spec fn bytes_of_bits(bits: Seq<bool>) -> Seq<u8> {
    Seq::new((bits.len() + 7) / 8, |j: int| bits_byte(bits, j))
}

/// Reassembling a byte from its eight bits yields the byte.
proof fn lemma_byte_reassemble(b: u8)
    ensures
        (if (b >> 7u8) & 1 == 1 {
            0x80u8
        } else {
            0u8
        }) | (if (b >> 6u8) & 1 == 1 {
            0x40u8
        } else {
            0u8
        }) | (if (b >> 5u8) & 1 == 1 {
            0x20u8
        } else {
            0u8
        }) | (if (b >> 4u8) & 1 == 1 {
            0x10u8
        } else {
            0u8
        }) | (if (b >> 3u8) & 1 == 1 {
            0x08u8
        } else {
            0u8
        }) | (if (b >> 2u8) & 1 == 1 {
            0x04u8
        } else {
            0u8
        }) | (if (b >> 1u8) & 1 == 1 {
            0x02u8
        } else {
            0u8
        }) | (if (b >> 0u8) & 1 == 1 {
            0x01u8
        } else {
            0u8
        }) == b,
{
    assert((if (b >> 7u8) & 1 == 1 {
        0x80u8
    } else {
        0u8
    }) | (if (b >> 6u8) & 1 == 1 {
        0x40u8
    } else {
        0u8
    }) | (if (b >> 5u8) & 1 == 1 {
        0x20u8
    } else {
        0u8
    }) | (if (b >> 4u8) & 1 == 1 {
        0x10u8
    } else {
        0u8
    }) | (if (b >> 3u8) & 1 == 1 {
        0x08u8
    } else {
        0u8
    }) | (if (b >> 2u8) & 1 == 1 {
        0x04u8
    } else {
        0u8
    }) | (if (b >> 1u8) & 1 == 1 {
        0x02u8
    } else {
        0u8
    }) | (if (b >> 0u8) & 1 == 1 {
        0x01u8
    } else {
        0u8
    }) == b) by (bit_vector);
}

/// Turning bytes into bits and back yields the original bytes: the bit
/// expansion is byte-aligned, so no padding is added.
pub proof fn lemma_bytes_bits_round_trip(bytes: Seq<u8>)
    ensures
        bytes_of_bits(bits_of_bytes(bytes)) == bytes,
{
    let bits = bits_of_bytes(bytes);
    assert(bits.len() == bytes.len() * 8);
    assert((bytes.len() * 8 + 7) / 8 == bytes.len()) by (nonlinear_arith);
    assert forall|j: int| 0 <= j < bytes.len() implies #[trigger] bits_byte(bits, j)
        == bytes[j] by {
        let b = bytes[j];
        assert forall|k: int| 0 <= k < 8 implies #[trigger] bit_at(bits, 8 * j + k) == ((b >> (7
            - k) as u8) & 1 == 1) by {
            let i = 8 * j + k;
            assert(0 <= i < bytes.len() * 8) by (nonlinear_arith)
                requires
                    0 <= j < bytes.len(),
                    0 <= k < 8,
                    i == 8 * j + k,
            ;
            assert(i / 8 == j && i % 8 == k) by (nonlinear_arith)
                requires
                    0 <= k < 8,
                    i == 8 * j + k,
            ;
        }
        lemma_byte_reassemble(b);
    }
    assert(bytes_of_bits(bits) =~= bytes);
}

/// Relies on `bit_vec::BitVec::from_bytes`: each byte becomes eight bits,
/// with the most significant bits of each byte coming first. The length
/// bound keeps the bit count representable, which the outside crate
/// demands.
#[verifier::external_body]
pub(crate) fn bytes_to_bits(bytes: &Vec<u8>) -> (b: BitVec)
    requires
        8 * bytes@.len() <= usize::MAX,
    ensures
        bit_vec_bits(b) == bits_of_bytes(bytes@),
{
    BitVec::from_bytes(bytes.as_slice())
}

/// Relies on `bit_vec::BitVec::to_bytes`: the bits, most significant
/// first, the last byte padded with zero bits.
#[verifier::external_body]
pub(crate) fn bits_to_bytes(b: &BitVec) -> (bytes: Vec<u8>)
    ensures
        bytes@ == bytes_of_bits(bit_vec_bits(*b)),
{
    b.to_bytes()
}

} // verus!
