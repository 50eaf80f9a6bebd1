//! The ordered-list codec: elements are concatenated in list order with no
//! length field or terminator, so a list owns the rest of its stream.
//!
//! Decoding repeatedly decodes one element; a clean end of stream stops the
//! loop and yields the elements gathered so far (possibly none), while any
//! error aborts with no partial result. Because the list is terminated only
//! by the end of the stream, nothing may follow it in the same stream, and
//! a list can never itself be an element of a greedy container: elements
//! must be self-delimiting.

use vstd::prelude::*;

use crate::codec::{Decoded, DiskError, DiskSer, SelfDelimited};
use crate::stream::ByteSource;

verus! {

/// The concatenation of the encodings of `elems`, in order.
pub open spec fn enc_list<E: DiskSer>(elems: Seq<E>) -> Seq<u8>
    decreases elems.len(),
{
    if elems.len() == 0 {
        Seq::empty()
    } else {
        elems[0].enc() + enc_list(elems.skip(1))
    }
}

/// The outcome of greedily decoding elements of type `E` from `s` until
/// its clean end. The guard on the consumed count keeps the recursion well
/// founded; for a self-delimiting element type the guarded branch is never
/// taken.
pub open spec fn dec_list<E: DiskSer>(s: Seq<u8>) -> Decoded<Seq<E::V>, int>
    decreases s.len(),
{
    match E::dec(s) {
        Decoded::Clean => Decoded::Value(Seq::empty(), 0),
        Decoded::Fail(e) => Decoded::Fail(e),
        Decoded::Value(v, n) => {
            if 1 <= n <= s.len() {
                match dec_list::<E>(s.skip(n)) {
                    Decoded::Value(tail, m) => Decoded::Value(seq![v] + tail, n + m),
                    Decoded::Fail(e) => Decoded::Fail(e),
                    Decoded::Clean => Decoded::Fail(DiskError::Truncated),
                }
            } else {
                Decoded::Fail(DiskError::Truncated)
            }
        },
    }
}

/// Greedy element decoding never reports a clean end: an empty stream is a
/// valid (empty) list.
pub proof fn lemma_dec_list_not_clean<E: DiskSer>(s: Seq<u8>)
    ensures
        !(dec_list::<E>(s) is Clean),
{
}

/// Appending one element to a list appends its encoding to the list's.
pub proof fn lemma_enc_list_push<E: DiskSer>(elems: Seq<E>, x: E)
    ensures
        enc_list(elems.push(x)) == enc_list(elems) + x.enc(),
    decreases elems.len(),
{
    if elems.len() == 0 {
        assert(elems.push(x).skip(1) =~= Seq::<E>::empty());
        assert(enc_list(Seq::<E>::empty()) == Seq::<u8>::empty());
        assert(elems =~= Seq::<E>::empty());
        assert(enc_list(elems.push(x)) =~= enc_list(elems) + x.enc());
    } else {
        assert(elems.push(x).skip(1) =~= elems.skip(1).push(x));
        lemma_enc_list_push(elems.skip(1), x);
        assert(enc_list(elems.push(x)) =~= enc_list(elems) + x.enc());
    }
}

/// A list's encoding splits at any index into the encoding of the prefix
/// followed by the encoding of the suffix.
pub proof fn lemma_enc_list_split<E: DiskSer>(elems: Seq<E>, i: int)
    requires
        0 <= i <= elems.len(),
    ensures
        enc_list(elems) == enc_list(elems.take(i)) + enc_list(elems.skip(i)),
    decreases i,
{
    if i == 0 {
        assert(elems.take(0) =~= Seq::<E>::empty());
        assert(elems.skip(0) =~= elems);
        assert(enc_list(elems) =~= enc_list(elems.take(0)) + enc_list(elems.skip(0)));
    } else {
        lemma_enc_list_split(elems, i - 1);
        let suf = elems.skip(i - 1);
        assert(suf[0] == elems[i - 1]);
        assert(suf.skip(1) =~= elems.skip(i));
        assert(enc_list(suf) == elems[i - 1].enc() + enc_list(elems.skip(i)));
        assert(elems.take(i) =~= elems.take(i - 1).push(elems[i - 1]));
        lemma_enc_list_push(elems.take(i - 1), elems[i - 1]);
        assert(enc_list(elems) =~= enc_list(elems.take(i)) + enc_list(elems.skip(i)));
    }
}

/// The invariant of the decoding loop: `cur` is what is left of `pre`, the
/// views `done` have been gathered, and finishing the decode of `cur`
/// finishes the decode of `pre`.
pub open spec fn list_loop_inv<E: DiskSer>(pre: Seq<u8>, cur: Seq<u8>, done: Seq<E::V>) -> bool {
    &&& cur.len() <= pre.len()
    &&& pre.skip(pre.len() - cur.len()) == cur
    &&& match dec_list::<E>(cur) {
        Decoded::Value(tail, m) => dec_list::<E>(pre) == Decoded::Value(
            done + tail,
            pre.len() - cur.len() + m,
        ),
        Decoded::Fail(e) => dec_list::<E>(pre) == Decoded::<Seq<E::V>, int>::Fail(e),
        Decoded::Clean => false,
    }
}

impl<E: SelfDelimited> DiskSer for Vec<E> {
    open spec fn wf(&self) -> bool {
        forall|i: int| 0 <= i < self@.len() ==> self@[i].wf()
    }

    open spec fn enc(&self) -> Seq<u8> {
        enc_list(self@)
    }

    open spec fn dec(s: Seq<u8>) -> Decoded<Seq<E::V>, int> {
        dec_list::<E>(s)
    }

    fn disk_serialize(&self, sink: &mut Vec<u8>) -> (n: usize) {
        let ghost sink0 = sink@;
        let mut n: usize = 0;
        let mut i: usize = 0;
        while i < self.len()
            invariant
                self.wf(),
                i <= self@.len(),
                sink0.len() + enc_list(self@).len() <= usize::MAX,
                sink@ == sink0 + enc_list(self@.take(i as int)),
                n == enc_list(self@.take(i as int)).len(),
            decreases self@.len() - i,
        {
            proof {
                lemma_enc_list_split(self@, i as int);
                let suf = self@.skip(i as int);
                assert(suf[0] == self@[i as int]);
                assert(suf.skip(1) =~= self@.skip(i + 1));
                assert(enc_list(suf) == self@[i as int].enc() + enc_list(self@.skip(i + 1)));
            }
            let m = self[i].disk_serialize(sink);
            proof {
                lemma_enc_list_push(self@.take(i as int), self@[i as int]);
                assert(self@.take(i + 1) =~= self@.take(i as int).push(self@[i as int]));
            }
            n = n + m;
            i = i + 1;
        }
        proof {
            assert(self@.take(i as int) =~= self@);
        }
        n
    }

    fn disk_deserialize(source: &mut ByteSource) -> (r: Result<Option<Vec<E>>, DiskError>) {
        let ghost pre = source@;
        let mut res: Vec<E> = Vec::new();
        proof {
            lemma_dec_list_not_clean::<E>(pre);
            if let Decoded::Value(tail, m) = dec_list::<E>(pre) {
                assert(res.deep_view() + tail =~= tail);
                assert(dec_list::<E>(pre) =~= Decoded::Value(res.deep_view() + tail, m));
            }
            assert(pre.skip(0) =~= pre);
        }
        loop
            invariant
                pre == old(source)@,
                list_loop_inv::<E>(pre, source@, res.deep_view()),
                forall|k: int| 0 <= k < res@.len() ==> res@[k].wf(),
            decreases source@.len(),
        {
            let ghost cur0 = source@;
            let ghost done0 = res.deep_view();
            match E::disk_deserialize(source) {
                Err(e) => {
                    return Err(e);
                },
                Ok(None) => {
                    proof {
                        E::lemma_dec_clean(cur0);
                        assert(done0 + Seq::<E::V>::empty() =~= done0);
                        assert(dec_list::<E>(pre) =~= Decoded::Value(
                            done0,
                            pre.len() - cur0.len(),
                        ));
                    }
                    return Ok(Some(res));
                },
                Ok(Some(el)) => {
                    proof {
                        E::lemma_dec_bounds(cur0);
                    }
                    res.push(el);
                    proof {
                        let nn = match E::dec(cur0) {
                            Decoded::Value(v, nn) => nn,
                            _ => 0,
                        };
                        let cur1 = cur0.skip(nn);
                        assert(source@ == cur1);
                        assert(res.deep_view() =~= done0.push(el.deep_view()));
                        lemma_dec_list_not_clean::<E>(cur1);
                        assert(pre.skip(pre.len() - cur1.len()) =~= cur1);
                        if let Decoded::Value(tail1, m1) = dec_list::<E>(cur1) {
                            assert(dec_list::<E>(cur0) =~= Decoded::Value(
                                seq![el.deep_view()] + tail1,
                                nn + m1,
                            ));
                            assert(done0 + (seq![el.deep_view()] + tail1) =~= res.deep_view()
                                + tail1);
                            assert(dec_list::<E>(pre) =~= Decoded::Value(
                                res.deep_view() + tail1,
                                pre.len() - cur1.len() + m1,
                            ));
                        }
                    }
                },
            }
        }
    }
}

/// The ordered-list round trip: decoding a stream that holds precisely the
/// encoding of a list of well-formed elements reproduces the list, in its
/// original order, consuming the whole stream.
pub proof fn lemma_list_round_trip<E: SelfDelimited>(elems: Seq<E>)
    requires
        forall|i: int| 0 <= i < elems.len() ==> elems[i].wf(),
    ensures
        dec_list::<E>(enc_list(elems)) == Decoded::Value(
            Seq::new(elems.len(), |i: int| elems[i].deep_view()),
            enc_list(elems).len() as int,
        ),
    decreases elems.len(),
{
    let views = Seq::new(elems.len(), |i: int| elems[i].deep_view());
    if elems.len() == 0 {
        E::lemma_dec_clean(enc_list(elems));
        assert(views =~= Seq::<E::V>::empty());
        assert(dec_list::<E>(enc_list(elems)) =~= Decoded::Value(views, 0));
    } else {
        let head = elems[0];
        let tail = elems.skip(1);
        let s = enc_list(elems);
        head.lemma_dec_prefix(enc_list(tail));
        head.lemma_enc_len();
        assert(forall|i: int| 0 <= i < tail.len() ==> #[trigger] tail[i].wf());
        lemma_list_round_trip::<E>(tail);
        assert(s.skip(head.enc().len() as int) =~= enc_list(tail));
        assert(seq![head.deep_view()] + Seq::new(tail.len(), |i: int| tail[i].deep_view())
            =~= views);
        assert(dec_list::<E>(s) =~= Decoded::Value(views, s.len() as int));
    }
}

} // verus!
