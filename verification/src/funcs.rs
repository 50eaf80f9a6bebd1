//! The compiled-function codec: a length-prefixed byte buffer holding the
//! bit-packed form of a function's raw representation.
//!
//! Writing packs the function, measures the packed bytes, writes that
//! length as a 16-byte unsigned integer and then the bytes themselves.
//! Reading decodes the length (a clean end here is a valid terminator for
//! a stream of function slots), reads exactly that many bytes — fewer is a
//! truncation error — and then runs two external steps that can each fail
//! with an invalid-data error: the bit-unpacker, and the compiler. A
//! compiled function is only ever produced by a successful run of the
//! compiler.

use bit_vec::BitVec;
use vstd::prelude::*;

use crate::bits::{bit_vec_bits, bits_of_bytes, bits_to_bytes, bytes_of_bits, bytes_to_bits};
use crate::codec::{Decoded, DiskError, DiskSer, SelfDelimited};
use crate::scalar::u128_le_bytes;
use crate::stream::ByteSource;

verus! {

/// The boundary to the external function machinery: a compiled function
/// that can hand out the bit-packed form of its raw representation, and
/// the external unpack and compile steps that rebuild one from bits. The
/// two `spec` counterparts pin each step down as a function of the bits or
/// of the raw form alone, at the level of views.
pub trait DiskFunc: DeepView + Sized {
    /// The raw (uncompiled) representation that the unpacker yields and
    /// the compiler consumes.
    type Raw: DeepView;

    /// Which compiled functions are well formed. Every value the compiler
    /// returns is; the codec only round-trips well-formed functions.
    spec fn wf(&self) -> bool;

    /// The bit-packed form of this function's raw representation.
    spec fn packed_bits(&self) -> Seq<bool>;

    /// What the unpacker makes of a bit sequence, if anything.
    spec fn spec_unpack(bits: Seq<bool>) -> Option<<Self::Raw as DeepView>::V>;

    /// What the compiler makes of a raw representation, if anything.
    spec fn spec_compile(raw: <Self::Raw as DeepView>::V) -> Option<Self::V>;

    /// Packs this function's raw representation into bits.
    fn pack(&self) -> (b: BitVec)
        requires
            self.wf(),
        ensures
            bit_vec_bits(b) == self.packed_bits(),
    ;

    /// Attempts to unpack a raw representation from bits.
    fn unpack(bits: &BitVec) -> (r: Option<Self::Raw>)
        ensures
            (r is Some) == (Self::spec_unpack(bit_vec_bits(*bits)) is Some),
            r matches Some(raw) ==> Self::spec_unpack(bit_vec_bits(*bits)) matches Some(rv)
                && raw.deep_view() == rv,
    ;

    /// Attempts to compile a raw representation.
    fn compile(raw: &Self::Raw) -> (r: Option<Self>)
        ensures
            (r is Some) == (Self::spec_compile(raw.deep_view()) is Some),
            r matches Some(f) ==> Self::spec_compile(raw.deep_view()) matches Some(fv)
                && f.deep_view() == fv && f.wf(),
    ;

    /// Packing a well-formed function, carrying the bits as padded bytes,
    /// unpacking them and compiling the result reproduces the function, at
    /// the level of views: the pack, unpack and compile steps compose.
    proof fn lemma_pack_faithful(&self)
        requires
            self.wf(),
        ensures
            ({
                let bits = bits_of_bytes(bytes_of_bits(self.packed_bits()));
                &&& Self::spec_unpack(bits) matches Some(rv)
                &&& Self::spec_compile(rv) matches Some(fv) && fv == self.deep_view()
            }),
    ;

    /// The packed form of a well-formed function is of bounded size, so
    /// its byte length fits the 16-byte length prefix.
    proof fn lemma_packed_bounded(&self)
        requires
            self.wf(),
        ensures
            self.packed_bits().len() <= u64::MAX,
    ;
}

/// One function slot on a stream: the length-prefixed, bit-packed wire
/// form of the compiled function it holds.
pub struct FuncSlot<F> {
    func: F,
}

impl<F: DiskFunc> DeepView for FuncSlot<F> {
    type V = <F as DeepView>::V;

    closed spec fn deep_view(&self) -> <F as DeepView>::V {
        self.func.deep_view()
    }
}

impl<F: DiskFunc> FuncSlot<F> {
    /// Wraps a compiled function for writing to a stream.
    pub fn new(func: F) -> (s: FuncSlot<F>)
        ensures
            s.deep_view() == func.deep_view(),
            s.wf() == func.wf(),
    {
        FuncSlot { func }
    }

    /// The compiled function this slot holds.
    pub fn func(&self) -> (f: &F)
        ensures
            f.deep_view() == self.deep_view(),
            f.wf() == self.wf(),
    {
        &self.func
    }
}

/// The outcome of decoding one function slot from the front of `s`: the
/// 16-byte length, then exactly that many payload bytes, then the external
/// unpack and compile steps, either of which failing is invalid data.
pub open spec fn dec_func<F: DiskFunc>(s: Seq<u8>) -> Decoded<<F as DeepView>::V, int> {
    match <u128 as DiskSer>::dec(s) {
        Decoded::Clean => Decoded::Clean,
        Decoded::Fail(e) => Decoded::Fail(e),
        Decoded::Value(len, _) => {
            if s.len() - 16 < len as int {
                Decoded::Fail(DiskError::Truncated)
            } else {
                match F::spec_unpack(bits_of_bytes(s.subrange(16, 16 + len as int))) {
                    None => Decoded::Fail(DiskError::InvalidData),
                    Some(rv) => match F::spec_compile(rv) {
                        None => Decoded::Fail(DiskError::InvalidData),
                        Some(fv) => Decoded::Value(fv, 16 + len as int),
                    },
                }
            }
        },
    }
}

impl<F: DiskFunc> DiskSer for FuncSlot<F> {
    closed spec fn wf(&self) -> bool {
        self.func.wf()
    }

    closed spec fn enc(&self) -> Seq<u8> {
        u128_le_bytes(bytes_of_bits(self.func.packed_bits()).len() as u128) + bytes_of_bits(
            self.func.packed_bits(),
        )
    }

    open spec fn dec(s: Seq<u8>) -> Decoded<<F as DeepView>::V, int> {
        dec_func::<F>(s)
    }

    fn disk_serialize(&self, sink: &mut Vec<u8>) -> (n: usize) {
        proof {
            self.func.lemma_packed_bounded();
        }
        let bits = self.func.pack();
        let mut buf = bits_to_bytes(&bits);
        let len128 = buf.len() as u128;
        let n1 = len128.disk_serialize(sink);
        let n2 = buf.len();
        sink.append(&mut buf);
        proof {
            assert(sink@ =~= old(sink)@ + self.enc());
        }
        n1 + n2
    }

    fn disk_deserialize(source: &mut ByteSource) -> (r: Result<Option<FuncSlot<F>>, DiskError>) {
        let ghost pre = source@;
        let len128 = match u128::disk_deserialize(source) {
            Err(e) => {
                return Err(e);
            },
            Ok(None) => {
                return Ok(None);
            },
            Ok(Some(l)) => l,
        };
        let avail = source.remaining_len();
        if (avail as u128) < len128 {
            return Err(DiskError::Truncated);
        }
        let len = len128 as usize;
        let payload = source.read_up_to(len);
        proof {
            assert(payload@ =~= pre.subrange(16, 16 + len128 as int));
            assert(source@ =~= pre.skip(16 + len128 as int));
        }
        let bits = bytes_to_bits(&payload);
        let raw = match F::unpack(&bits) {
            None => {
                return Err(DiskError::InvalidData);
            },
            Some(raw) => raw,
        };
        match F::compile(&raw) {
            None => Err(DiskError::InvalidData),
            Some(f) => Ok(Some(FuncSlot { func: f })),
        }
    }
}

/// The function-slot taxonomy in one place, over any stream that opens
/// with a length prefix followed by a payload that the stream then ends
/// with: a payload shorter than the promised length is a truncation
/// error; a full payload that the unpacker rejects is invalid data; one
/// whose unpacked raw function the compiler rejects is invalid data too;
/// and a full, unpackable, compilable payload yields exactly the compiled
/// function.
pub proof fn lemma_func_slot_cases<F: DiskFunc>(len: u128, payload: Seq<u8>)
    ensures
        payload.len() < len ==> dec_func::<F>(u128_le_bytes(len) + payload)
            == Decoded::<<F as DeepView>::V, int>::Fail(DiskError::Truncated),
        payload.len() == len ==> dec_func::<F>(u128_le_bytes(len) + payload) == (match F::spec_unpack(
            bits_of_bytes(payload),
        ) {
            None => Decoded::<<F as DeepView>::V, int>::Fail(DiskError::InvalidData),
            Some(rv) => match F::spec_compile(rv) {
                None => Decoded::<<F as DeepView>::V, int>::Fail(DiskError::InvalidData),
                Some(fv) => Decoded::Value(fv, 16 + len as int),
            },
        }),
{
    let s = u128_le_bytes(len) + payload;
    len.lemma_dec_prefix(payload);
    assert(len.enc() + payload =~= s);
    if payload.len() == len {
        assert(s.subrange(16, 16 + len as int) =~= payload);
    }
}

impl<F: DiskFunc> SelfDelimited for FuncSlot<F> {
    proof fn lemma_enc_len(&self) {
    }

    proof fn lemma_dec_clean(s: Seq<u8>) {
    }

    proof fn lemma_dec_bounds(s: Seq<u8>) {
    }

    proof fn lemma_dec_prefix(&self, rest: Seq<u8>) {
        self.func.lemma_packed_bounded();
        self.func.lemma_pack_faithful();
        let payload = bytes_of_bits(self.func.packed_bits());
        let l128 = payload.len() as u128;
        let s = self.enc() + rest;
        l128.lemma_dec_prefix(payload + rest);
        assert(l128.enc() + (payload + rest) =~= s);
        assert(s.subrange(16, 16 + l128 as int) =~= payload);
    }
}

} // verus!
