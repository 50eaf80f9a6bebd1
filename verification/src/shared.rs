//! The ownership-wrapper codec: a shared-ownership handle around any
//! serializable value delegates encoding to the value it holds, and
//! decoding allocates a fresh handle around whatever the inner codec
//! produced. The wrapper changes nothing on the wire and nothing in the
//! decoded view.

use std::sync::Arc;

use vstd::prelude::*;

use crate::codec::{Decoded, DiskError, DiskKey, DiskSer, SelfDelimited};
use crate::stream::ByteSource;

verus! {

impl<T: DiskSer> DiskSer for Arc<T> {
    open spec fn wf(&self) -> bool {
        (**self).wf()
    }

    open spec fn enc(&self) -> Seq<u8> {
        (**self).enc()
    }

    open spec fn dec(s: Seq<u8>) -> Decoded<T::V, int> {
        T::dec(s)
    }

    fn disk_serialize(&self, sink: &mut Vec<u8>) -> (n: usize) {
        let inner: &T = &**self;
        inner.disk_serialize(sink)
    }

    fn disk_deserialize(source: &mut ByteSource) -> (r: Result<Option<Arc<T>>, DiskError>) {
        match T::disk_deserialize(source) {
            Ok(None) => Ok(None),
            Ok(Some(t)) => Ok(Some(Arc::new(t))),
            Err(e) => Err(e),
        }
    }
}

impl<T: SelfDelimited> SelfDelimited for Arc<T> {
    proof fn lemma_enc_len(&self) {
        (**self).lemma_enc_len();
    }

    proof fn lemma_dec_clean(s: Seq<u8>) {
        T::lemma_dec_clean(s);
    }

    proof fn lemma_dec_bounds(s: Seq<u8>) {
        T::lemma_dec_bounds(s);
    }

    proof fn lemma_dec_prefix(&self, rest: Seq<u8>) {
        (**self).lemma_dec_prefix(rest);
    }
}

impl<T: DiskKey> DiskKey for Arc<T> {
    fn same_key(&self, other: &Self) -> (b: bool) {
        let a: &T = &**self;
        let b: &T = &**other;
        a.same_key(b)
    }
}

/// The wrapper is observationally transparent: a handle encodes exactly as
/// the value it holds, decoding through the handle type is decoding the
/// inner type, and dereferencing the decoded handle shows the same view
/// the inner codec would have produced.
pub proof fn lemma_shared_transparent<T: DiskSer>(a: Arc<T>, s: Seq<u8>)
    ensures
        a.enc() == (*a).enc(),
        a.deep_view() == (*a).deep_view(),
        <Arc<T> as DiskSer>::dec(s) == T::dec(s),
{
}

} // verus!
