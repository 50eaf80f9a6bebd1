//! The codec contract shared by every serializable type.
//!
//! Encoding a value appends its byte encoding to a sink and reports the
//! count written. Decoding inspects the front of a source and ends in one
//! of three ways: a clean end (zero bytes were obtainable at the very start
//! of the attempt), a value (together with how many bytes it consumed), or
//! an error. Any short read in the middle of a value is a hard error, never
//! a silent end of data.

use vstd::prelude::*;

use crate::stream::ByteSource;

verus! {

/// Why a decode attempt failed.
#[derive(Clone, Copy, Debug, PartialEq, Eq, Structural)]
pub enum DiskError {
    /// The stream ended in the middle of a value: inside a fixed-width
    /// scalar, after a mapping key whose value never came, or inside a
    /// length-prefixed payload shorter than its declared length.
    Truncated,
    /// A complete payload that the bit-unpacker could not make sense of,
    /// or an unpacked function that the compiler rejected.
    InvalidData,
}

/// The mathematical outcome of decoding one value from the front of a
/// byte sequence: a clean end, a failure, or a value together with the
/// number of bytes it consumed.
#[verifier::ext_equal]
pub enum Decoded<V, N> {
    Clean,
    Fail(DiskError),
    Value(V, N),
}

/// A type that can be written to and read back from a byte stream.
///
/// `enc` is the exact byte encoding of a value; `dec` is the exact
/// mathematical decode of the front of a byte sequence. The two executable
/// methods are bound to those functions, so every implementation's wire
/// behaviour is pinned down in its specification.
pub trait DiskSer: DeepView + Sized {
    /// Which values of the type are well formed. Encodings round-trip for
    /// well-formed values, and decoding only ever produces them.
    spec fn wf(&self) -> bool;

    /// The bytes that `disk_serialize` writes for this value.
    spec fn enc(&self) -> Seq<u8>;

    /// The outcome of decoding one value of this type from the front of
    /// `s`.
    spec fn dec(s: Seq<u8>) -> Decoded<Self::V, int>;

    /// Appends this value's encoding to `sink` and returns how many bytes
    /// were written.
    fn disk_serialize(&self, sink: &mut Vec<u8>) -> (n: usize)
        requires
            self.wf(),
            old(sink)@.len() + self.enc().len() <= usize::MAX,
        ensures
            final(sink)@ == old(sink)@ + self.enc(),
            n == self.enc().len(),
    ;

    /// Decodes one value of this type from the front of `source`:
    /// `Ok(None)` at a clean end of stream, `Ok(Some(v))` on success, and
    /// `Err(_)` on a truncated or corrupt stream. The result, and the
    /// bytes left in the source, agree exactly with `Self::dec` applied to
    /// the bytes that were there; a decoded value is well formed and is
    /// pinned down at the level of its view.
    fn disk_deserialize(source: &mut ByteSource) -> (r: Result<Option<Self>, DiskError>)
        ensures
            match Self::dec(old(source)@) {
                Decoded::Clean => {
                    &&& r == Ok::<Option<Self>, DiskError>(None)
                    &&& final(source)@ == old(source)@
                },
                Decoded::Fail(e) => r == Err::<Option<Self>, DiskError>(e),
                Decoded::Value(v, n) => {
                    &&& r matches Ok(Some(x)) && x.deep_view() == v && x.wf()
                    &&& final(source)@ == old(source)@.skip(n)
                },
            },
    ;
}

/// The framing laws of a codec whose values delimit themselves on the
/// wire, so that other values may follow them in the same stream. The
/// greedy containers (lists and mappings) consume the stream to its end
/// and deliberately do not satisfy these laws; everything they contain
/// must.
pub trait SelfDelimited: DiskSer {
    /// An encoded value occupies at least one byte, so a decoder can tell
    /// "a value follows" from "the stream is over".
    proof fn lemma_enc_len(&self)
        ensures
            1 <= self.enc().len(),
    ;

    /// Decoding reports a clean end exactly when zero bytes were
    /// obtainable at the very start of the attempt.
    proof fn lemma_dec_clean(s: Seq<u8>)
        ensures
            Self::dec(s) is Clean <==> s.len() == 0,
    ;

    /// A successful decode consumes at least one byte and never more than
    /// the stream holds.
    proof fn lemma_dec_bounds(s: Seq<u8>)
        ensures
            Self::dec(s) matches Decoded::Value(v, n) ==> 1 <= n <= s.len(),
    ;

    /// Round trip with a remainder: decoding a stream that starts with the
    /// encoding of a well-formed value yields exactly that value (at the
    /// level of views) and consumes exactly its encoding, whatever bytes
    /// follow.
    proof fn lemma_dec_prefix(&self, rest: Seq<u8>)
        requires
            self.wf(),
        ensures
            Self::dec(self.enc() + rest) == Decoded::Value(
                self.deep_view(),
                self.enc().len() as int,
            ),
    ;
}

/// The plain round trip: for every well-formed value — every representable
/// scalar included — decoding a stream holding precisely the bytes its
/// encoding produced yields exactly that value, consuming the whole
/// stream.
pub proof fn lemma_round_trip<T: SelfDelimited>(x: T)
    requires
        x.wf(),
    ensures
        T::dec(x.enc()) == Decoded::Value(x.deep_view(), x.enc().len() as int),
{
    x.lemma_dec_prefix(Seq::empty());
    assert(x.enc() + Seq::empty() =~= x.enc());
}

/// A self-delimiting type whose values can also serve as mapping keys:
/// two keys can be compared for equality of their views at run time.
pub trait DiskKey: SelfDelimited {
    /// Decides whether two keys are the same key.
    fn same_key(&self, other: &Self) -> (b: bool)
        ensures
            b == (self.deep_view() == other.deep_view()),
    ;
}

} // verus!
