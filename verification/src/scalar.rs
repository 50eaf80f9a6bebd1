//! Fixed-width little-endian codecs for the scalar integer types in use:
//! one-byte values and the two 16-byte integer types, one unsigned and one
//! signed.
//!
//! Decoding a scalar reads up to its width: zero bytes obtainable is the
//! clean end of the stream, anything between one byte and one short of the
//! width is a truncation error, and a full-width read is the value.

use vstd::prelude::*;

use crate::codec::{Decoded, DiskError, DiskKey, DiskSer, SelfDelimited};
use crate::stream::ByteSource;

verus! {

/// The 16 little-endian bytes of a 16-byte unsigned integer.
pub open spec fn u128_le_bytes(x: u128) -> Seq<u8> {
    seq![
        (x & 0xff) as u8,
        ((x >> 8) & 0xff) as u8,
        ((x >> 16) & 0xff) as u8,
        ((x >> 24) & 0xff) as u8,
        ((x >> 32) & 0xff) as u8,
        ((x >> 40) & 0xff) as u8,
        ((x >> 48) & 0xff) as u8,
        ((x >> 56) & 0xff) as u8,
        ((x >> 64) & 0xff) as u8,
        ((x >> 72) & 0xff) as u8,
        ((x >> 80) & 0xff) as u8,
        ((x >> 88) & 0xff) as u8,
        ((x >> 96) & 0xff) as u8,
        ((x >> 104) & 0xff) as u8,
        ((x >> 112) & 0xff) as u8,
        ((x >> 120) & 0xff) as u8,
    ]
}

/// The 16-byte unsigned integer read little-endian from the first 16
/// bytes of `s`.
pub open spec fn u128_from_le_bytes(s: Seq<u8>) -> u128
    recommends
        s.len() == 16,
{
    (s[0] as u128) | (s[1] as u128) << 8 | (s[2] as u128) << 16 | (s[3] as u128) << 24 | (
    s[4] as u128) << 32 | (s[5] as u128) << 40 | (s[6] as u128) << 48 | (s[7] as u128) << 56 | (
    s[8] as u128) << 64 | (s[9] as u128) << 72 | (s[10] as u128) << 80 | (s[11] as u128) << 88 | (
    s[12] as u128) << 96 | (s[13] as u128) << 104 | (s[14] as u128) << 112 | (s[15] as u128) << 120
}

/// Reading back the 16 little-endian bytes of `x` yields `x`.
#[verifier::spinoff_prover]
pub proof fn lemma_u128_le_round_trip(x: u128)
    ensures
        u128_from_le_bytes(u128_le_bytes(x)) == x,
{
    let s = u128_le_bytes(x);
    assert({
        &&& x & 0xff < 256
        &&& (x >> 8) & 0xff < 256
        &&& (x >> 16) & 0xff < 256
        &&& (x >> 24) & 0xff < 256
        &&& (x >> 32) & 0xff < 256
        &&& (x >> 40) & 0xff < 256
        &&& (x >> 48) & 0xff < 256
        &&& (x >> 56) & 0xff < 256
        &&& (x >> 64) & 0xff < 256
        &&& (x >> 72) & 0xff < 256
        &&& (x >> 80) & 0xff < 256
        &&& (x >> 88) & 0xff < 256
        &&& (x >> 96) & 0xff < 256
        &&& (x >> 104) & 0xff < 256
        &&& (x >> 112) & 0xff < 256
        &&& (x >> 120) & 0xff < 256
    }) by (bit_vector);
    assert(x == (x & 0xff) | ((x >> 8) & 0xff) << 8 | ((x >> 16) & 0xff) << 16 | ((x >> 24)
        & 0xff) << 24 | ((x >> 32) & 0xff) << 32 | ((x >> 40) & 0xff) << 40 | ((x >> 48) & 0xff)
        << 48 | ((x >> 56) & 0xff) << 56 | ((x >> 64) & 0xff) << 64 | ((x >> 72) & 0xff) << 72 | ((
    x >> 80) & 0xff) << 80 | ((x >> 88) & 0xff) << 88 | ((x >> 96) & 0xff) << 96 | ((x >> 104)
        & 0xff) << 104 | ((x >> 112) & 0xff) << 112 | ((x >> 120) & 0xff) << 120) by (bit_vector);
}

/// Casting a signed 16-byte integer to unsigned and back yields the
/// original value.
pub proof fn lemma_i128_cast_round_trip(x: i128)
    ensures
        (x as u128) as i128 == x,
{
    assert((x as u128) as i128 == x) by (bit_vector);
}

/// Truncating the encoded bytes of a 16-byte unsigned scalar to any
/// length short of its width is a truncation error; truncating to nothing
/// is the clean end of the stream.
pub proof fn lemma_u128_truncation(x: u128, k: int)
    requires
        0 <= k < 16,
    ensures
        k == 0 ==> <u128 as DiskSer>::dec(u128_le_bytes(x).take(k)) is Clean,
        k > 0 ==> <u128 as DiskSer>::dec(u128_le_bytes(x).take(k)) == Decoded::<u128, int>::Fail(
            DiskError::Truncated,
        ),
{
}

/// Truncating the encoded bytes of a 16-byte signed scalar to any length
/// short of its width is a truncation error; truncating to nothing is the
/// clean end of the stream.
pub proof fn lemma_i128_truncation(x: i128, k: int)
    requires
        0 <= k < 16,
    ensures
        k == 0 ==> <i128 as DiskSer>::dec(x.enc().take(k)) is Clean,
        k > 0 ==> <i128 as DiskSer>::dec(x.enc().take(k)) == Decoded::<i128, int>::Fail(
            DiskError::Truncated,
        ),
{
}

impl DiskSer for u8 {
    open spec fn wf(&self) -> bool {
        true
    }

    open spec fn enc(&self) -> Seq<u8> {
        seq![*self]
    }

    open spec fn dec(s: Seq<u8>) -> Decoded<u8, int> {
        if s.len() == 0 {
            Decoded::Clean
        } else {
            Decoded::Value(s[0], 1)
        }
    }

    fn disk_serialize(&self, sink: &mut Vec<u8>) -> (n: usize) {
        sink.push(*self);
        proof {
            assert(sink@ =~= old(sink)@ + self.enc());
        }
        1
    }

    fn disk_deserialize(source: &mut ByteSource) -> (r: Result<Option<u8>, DiskError>) {
        match source.read_byte() {
            None => Ok(None),
            Some(b) => Ok(Some(b)),
        }
    }
}

impl SelfDelimited for u8 {
    proof fn lemma_enc_len(&self) {
    }

    proof fn lemma_dec_clean(s: Seq<u8>) {
    }

    proof fn lemma_dec_bounds(s: Seq<u8>) {
    }

    proof fn lemma_dec_prefix(&self, rest: Seq<u8>) {
        assert((self.enc() + rest)[0] == *self);
    }
}

impl DiskKey for u8 {
    fn same_key(&self, other: &Self) -> (b: bool) {
        *self == *other
    }
}

impl DiskSer for u128 {
    open spec fn wf(&self) -> bool {
        true
    }

    open spec fn enc(&self) -> Seq<u8> {
        u128_le_bytes(*self)
    }

    open spec fn dec(s: Seq<u8>) -> Decoded<u128, int> {
        if s.len() == 0 {
            Decoded::Clean
        } else if s.len() < 16 {
            Decoded::Fail(DiskError::Truncated)
        } else {
            Decoded::Value(u128_from_le_bytes(s.take(16)), 16)
        }
    }

    fn disk_serialize(&self, sink: &mut Vec<u8>) -> (n: usize) {
        let x = *self;
        sink.push((x & 0xff) as u8);
        sink.push(((x >> 8) & 0xff) as u8);
        sink.push(((x >> 16) & 0xff) as u8);
        sink.push(((x >> 24) & 0xff) as u8);
        sink.push(((x >> 32) & 0xff) as u8);
        sink.push(((x >> 40) & 0xff) as u8);
        sink.push(((x >> 48) & 0xff) as u8);
        sink.push(((x >> 56) & 0xff) as u8);
        sink.push(((x >> 64) & 0xff) as u8);
        sink.push(((x >> 72) & 0xff) as u8);
        sink.push(((x >> 80) & 0xff) as u8);
        sink.push(((x >> 88) & 0xff) as u8);
        sink.push(((x >> 96) & 0xff) as u8);
        sink.push(((x >> 104) & 0xff) as u8);
        sink.push(((x >> 112) & 0xff) as u8);
        sink.push(((x >> 120) & 0xff) as u8);
        proof {
            assert(sink@ =~= old(sink)@ + self.enc());
        }
        16
    }

    fn disk_deserialize(source: &mut ByteSource) -> (r: Result<Option<u128>, DiskError>) {
        let buf = source.read_up_to(16);
        if buf.len() == 0 {
            Ok(None)
        } else if buf.len() < 16 {
            Err(DiskError::Truncated)
        } else {
            let x = (buf[0] as u128) | (buf[1] as u128) << 8 | (buf[2] as u128) << 16 | (
            buf[3] as u128) << 24 | (buf[4] as u128) << 32 | (buf[5] as u128) << 40 | (
            buf[6] as u128) << 48 | (buf[7] as u128) << 56 | (buf[8] as u128) << 64 | (
            buf[9] as u128) << 72 | (buf[10] as u128) << 80 | (buf[11] as u128) << 88 | (
            buf[12] as u128) << 96 | (buf[13] as u128) << 104 | (buf[14] as u128) << 112 | (
            buf[15] as u128) << 120;
            Ok(Some(x))
        }
    }
}

impl SelfDelimited for u128 {
    proof fn lemma_enc_len(&self) {
    }

    proof fn lemma_dec_clean(s: Seq<u8>) {
    }

    proof fn lemma_dec_bounds(s: Seq<u8>) {
    }

    proof fn lemma_dec_prefix(&self, rest: Seq<u8>) {
        let s = self.enc() + rest;
        assert(s.take(16) =~= self.enc());
        lemma_u128_le_round_trip(*self);
    }
}

impl DiskKey for u128 {
    fn same_key(&self, other: &Self) -> (b: bool) {
        *self == *other
    }
}

impl DiskSer for i128 {
    open spec fn wf(&self) -> bool {
        true
    }

    open spec fn enc(&self) -> Seq<u8> {
        u128_le_bytes(*self as u128)
    }

    open spec fn dec(s: Seq<u8>) -> Decoded<i128, int> {
        if s.len() == 0 {
            Decoded::Clean
        } else if s.len() < 16 {
            Decoded::Fail(DiskError::Truncated)
        } else {
            Decoded::Value(u128_from_le_bytes(s.take(16)) as i128, 16)
        }
    }

    fn disk_serialize(&self, sink: &mut Vec<u8>) -> (n: usize) {
        let x = *self as u128;
        x.disk_serialize(sink)
    }

    fn disk_deserialize(source: &mut ByteSource) -> (r: Result<Option<i128>, DiskError>) {
        match u128::disk_deserialize(source) {
            Ok(None) => Ok(None),
            Ok(Some(x)) => Ok(Some(x as i128)),
            Err(e) => Err(e),
        }
    }
}

impl SelfDelimited for i128 {
    proof fn lemma_enc_len(&self) {
    }

    proof fn lemma_dec_clean(s: Seq<u8>) {
    }

    proof fn lemma_dec_bounds(s: Seq<u8>) {
    }

    proof fn lemma_dec_prefix(&self, rest: Seq<u8>) {
        let s = self.enc() + rest;
        assert(s.take(16) =~= self.enc());
        lemma_u128_le_round_trip(*self as u128);
        lemma_i128_cast_round_trip(*self);
    }
}

impl DiskKey for i128 {
    fn same_key(&self, other: &Self) -> (b: bool) {
        *self == *other
    }
}

} // verus!
