//! The mapping codec: key and value encodings interleaved, with no length
//! field or terminator, so a mapping owns the rest of its stream.
//!
//! Decoding loops: a clean end in place of a key finishes the mapping; a
//! key followed by a clean end is corrupt (a key is never admitted without
//! its value); otherwise the pair is inserted, a later occurrence of a key
//! overwriting an earlier one. The mapping's view is a mathematical `Map`,
//! so the order pairs were written in is irrelevant to the decoded result.

use vstd::prelude::*;

use crate::codec::{Decoded, DiskError, DiskKey, DiskSer, SelfDelimited};
use crate::stream::ByteSource;

verus! {

/// The mapping described by a sequence of key/value pairs, a later pair
/// overwriting an earlier one with the same key.
pub open spec fn map_of<KV, VV>(prs: Seq<(KV, VV)>) -> Map<KV, VV>
    decreases prs.len(),
{
    if prs.len() == 0 {
        Map::empty()
    } else {
        map_of(prs.drop_last()).insert(prs.last().0, prs.last().1)
    }
}

/// No two pairs share a key.
pub open spec fn uniq_keys<KV, VV>(prs: Seq<(KV, VV)>) -> bool {
    forall|i: int, j: int| 0 <= i < j < prs.len() ==> prs[i].0 != prs[j].0
}

/// A key is in the mapping of `prs` exactly when some pair holds it.
pub proof fn lemma_map_of_contains<KV, VV>(prs: Seq<(KV, VV)>, kv: KV)
    ensures
        map_of(prs).contains_key(kv) <==> exists|i: int| 0 <= i < prs.len() && prs[i].0 == kv,
    decreases prs.len(),
{
    if prs.len() == 0 {
    } else {
        lemma_map_of_contains(prs.drop_last(), kv);
        if prs.last().0 == kv {
            assert(prs[prs.len() - 1].0 == kv);
        } else {
            if exists|i: int| 0 <= i < prs.len() && prs[i].0 == kv {
                let i = choose|i: int| 0 <= i < prs.len() && prs[i].0 == kv;
                assert(i < prs.len() - 1);
                assert(prs.drop_last()[i].0 == kv);
            }
        }
    }
}

/// With unique keys, each pair's value is the one the mapping associates
/// with its key.
pub proof fn lemma_map_of_value<KV, VV>(prs: Seq<(KV, VV)>, i: int)
    requires
        uniq_keys(prs),
        0 <= i < prs.len(),
    ensures
        map_of(prs).contains_key(prs[i].0),
        map_of(prs)[prs[i].0] == prs[i].1,
    decreases prs.len(),
{
    if i == prs.len() - 1 {
    } else {
        assert(uniq_keys(prs.drop_last()));
        lemma_map_of_value(prs.drop_last(), i);
        assert(prs.drop_last()[i] == prs[i]);
        assert(prs.last().0 != prs[i].0);
    }
}

/// With unique keys, removing the pair at `i` removes exactly its key
/// from the mapping.
pub proof fn lemma_map_of_remove<KV, VV>(prs: Seq<(KV, VV)>, i: int)
    requires
        uniq_keys(prs),
        0 <= i < prs.len(),
    ensures
        map_of(prs.remove(i)) == map_of(prs).remove(prs[i].0),
    decreases prs.len(),
{
    let kv = prs[i].0;
    if i == prs.len() - 1 {
        assert(prs.remove(i) =~= prs.drop_last());
        lemma_map_of_contains(prs.drop_last(), kv);
        assert(forall|j: int| 0 <= j < prs.len() - 1 ==> #[trigger] prs.drop_last()[j].0
            != kv);
        assert(!map_of(prs.drop_last()).contains_key(kv));
        assert(map_of(prs.drop_last()) =~= map_of(prs).remove(kv));
    } else {
        assert(uniq_keys(prs.drop_last()));
        lemma_map_of_remove(prs.drop_last(), i);
        assert(prs.remove(i).drop_last() =~= prs.drop_last().remove(i));
        assert(prs.remove(i).last() == prs.last());
        assert(prs.last().0 != kv);
        assert(map_of(prs.remove(i)) == map_of(prs.drop_last().remove(i)).insert(
            prs.last().0,
            prs.last().1,
        ));
        assert(map_of(prs.drop_last()).remove(kv).insert(prs.last().0, prs.last().1)
            =~= map_of(prs.drop_last()).insert(prs.last().0, prs.last().1).remove(kv));
    }
}

/// The mapping of a pair sequence is finite; with unique keys it has
/// exactly one entry per pair.
pub proof fn lemma_map_of_len<KV, VV>(prs: Seq<(KV, VV)>)
    ensures
        map_of(prs).dom().finite(),
        uniq_keys(prs) ==> map_of(prs).len() == prs.len(),
    decreases prs.len(),
{
    if prs.len() == 0 {
    } else {
        lemma_map_of_contains(prs.drop_last(), prs.last().0);
        lemma_map_of_len(prs.drop_last());
        if uniq_keys(prs) {
            assert(uniq_keys(prs.drop_last()));
            assert(forall|j: int| 0 <= j < prs.len() - 1 ==> #[trigger] prs.drop_last()[j].0
                != prs.last().0);
            assert(!map_of(prs.drop_last()).contains_key(prs.last().0));
        }
    }
}

/// An ordered collection of key/value records, written to disk as the
/// interleaved encodings of its pairs and viewed as the mapping they
/// describe. Keys are kept unique: inserting an existing key overwrites
/// its value.
pub struct DiskMap<K, V> {
    pairs: Vec<(K, V)>,
}

impl<K: DeepView, V: DeepView> DeepView for DiskMap<K, V> {
    type V = Map<K::V, V::V>;

    closed spec fn deep_view(&self) -> Map<K::V, V::V> {
        map_of(self.pairs.deep_view())
    }
}

impl<K: DiskKey, V: SelfDelimited> DiskMap<K, V> {
    /// The mapping with no entries.
    pub fn new() -> (m: DiskMap<K, V>)
        ensures
            m.wf(),
            m.deep_view() == Map::<K::V, V::V>::empty(),
    {
        let m = DiskMap::<K, V> { pairs: Vec::new() };
        proof {
            assert(m.pairs.deep_view() =~= Seq::<(K::V, V::V)>::empty());
        }
        m
    }

    /// Associates `v` with `k`, overwriting any earlier association of the
    /// same key.
    pub fn insert(&mut self, k: K, v: V)
        requires
            old(self).wf(),
            k.wf(),
            v.wf(),
        ensures
            final(self).wf(),
            final(self).deep_view() == old(self).deep_view().insert(k.deep_view(), v.deep_view()),
    {
        let ghost prs0 = self.pairs.deep_view();
        let mut found: Option<usize> = None;
        let mut i: usize = 0;
        while i < self.pairs.len()
            invariant
                i <= self.pairs@.len(),
                self == old(self),
                match found {
                    Some(fi) => fi < i && self.pairs@[fi as int].0.deep_view() == k.deep_view(),
                    None => forall|j: int|
                        0 <= j < i ==> #[trigger] self.pairs@[j].0.deep_view() != k.deep_view(),
                },
            decreases self.pairs@.len() - i,
        {
            if self.pairs[i].0.same_key(&k) {
                found = Some(i);
            }
            i = i + 1;
        }
        match found {
            Some(fi) => {
                proof {
                    lemma_map_of_remove(prs0, fi as int);
                    prs0.remove_ensures(fi as int);
                    old(self).pairs@.remove_ensures(fi as int);
                }
                self.pairs.remove(fi);
                proof {
                    assert(self.pairs.deep_view() =~= prs0.remove(fi as int));
                }
                let ghost prs1 = self.pairs.deep_view();
                let ghost vec1 = self.pairs@;
                self.pairs.push((k, v));
                proof {
                    let kv = k.deep_view();
                    let vv = v.deep_view();
                    let prs2 = self.pairs.deep_view();
                    assert(prs2 =~= prs1.push((kv, vv)));
                    assert(prs2.drop_last() =~= prs1);
                    assert(map_of(prs2) == map_of(prs1).insert(kv, vv));
                    assert(prs0[fi as int].0 == kv);
                    assert(map_of(prs0).remove(kv).insert(kv, vv) =~= map_of(prs0).insert(kv, vv));
                    assert forall|t: int| 0 <= t < prs1.len() implies #[trigger] prs1[t].0
                        != kv by {
                        if t < fi as int {
                            assert(prs1[t] == prs0[t]);
                        } else {
                            assert(prs1[t] == prs0[t + 1]);
                        }
                    }
                    assert forall|a: int, b: int| 0 <= a < b < prs2.len() implies prs2[a].0
                        != prs2[b].0 by {
                        assert(prs2[a] == prs1[a]);
                        if b == prs2.len() - 1 {
                            assert(prs2[b].0 == kv);
                        } else {
                            assert(prs2[b] == prs1[b]);
                            if fi as int <= a {
                                assert(prs1[a] == prs0[a + 1] && prs1[b] == prs0[b + 1]);
                            } else if fi as int <= b {
                                assert(prs1[a] == prs0[a] && prs1[b] == prs0[b + 1]);
                            } else {
                                assert(prs1[a] == prs0[a] && prs1[b] == prs0[b]);
                            }
                        }
                    }
                    assert(uniq_keys(prs2));
                    assert forall|t: int|
                        0 <= t < self.pairs@.len() implies #[trigger] self.pairs@[t].0.wf()
                        && self.pairs@[t].1.wf() by {
                        if t < self.pairs@.len() - 1 {
                            assert(self.pairs@[t] == vec1[t]);
                            if t < fi as int {
                                assert(vec1[t] == old(self).pairs@[t]);
                            } else {
                                assert(vec1[t] == old(self).pairs@[t + 1]);
                            }
                        }
                    }
                }
            },
            None => {
                self.pairs.push((k, v));
                proof {
                    let kv = k.deep_view();
                    let vv = v.deep_view();
                    let prs2 = self.pairs.deep_view();
                    assert(prs2 =~= prs0.push((kv, vv)));
                    assert(prs2.drop_last() =~= prs0);
                    assert(map_of(prs2) == map_of(prs0).insert(kv, vv));
                    assert forall|a: int, b: int| 0 <= a < b < prs2.len() implies prs2[a].0
                        != prs2[b].0 by {
                        assert(prs2[a] == prs0[a]);
                        if b == prs2.len() - 1 {
                            assert(old(self).pairs@[a].0.deep_view() != kv);
                            assert(prs0[a].0 == old(self).pairs@[a].0.deep_view());
                        } else {
                            assert(prs2[b] == prs0[b]);
                        }
                    }
                    assert(uniq_keys(prs2));
                    assert forall|t: int|
                        0 <= t < self.pairs@.len() implies #[trigger] self.pairs@[t].0.wf()
                        && self.pairs@[t].1.wf() by {
                        if t < self.pairs@.len() - 1 {
                            assert(self.pairs@[t] == old(self).pairs@[t]);
                        }
                    }
                }
            },
        }
    }

    /// How many associations the mapping holds.
    pub fn len(&self) -> (n: usize)
        requires
            self.wf(),
        ensures
            n == self.deep_view().len(),
    {
        proof {
            lemma_map_of_len(self.pairs.deep_view());
        }
        self.pairs.len()
    }

    /// Looks up the value associated with `key`, if any.
    pub fn get(&self, key: &K) -> (r: Option<&V>)
        requires
            self.wf(),
        ensures
            match r {
                Some(v) => {
                    &&& self.deep_view().contains_key(key.deep_view())
                    &&& v.deep_view() == self.deep_view()[key.deep_view()]
                },
                None => !self.deep_view().contains_key(key.deep_view()),
            },
    {
        let mut i: usize = 0;
        while i < self.pairs.len()
            invariant
                self.wf(),
                i <= self.pairs@.len(),
                forall|j: int|
                    0 <= j < i ==> #[trigger] self.pairs@[j].0.deep_view() != key.deep_view(),
            decreases self.pairs@.len() - i,
        {
            if self.pairs[i].0.same_key(key) {
                proof {
                    lemma_map_of_value(self.pairs.deep_view(), i as int);
                }
                return Some(&self.pairs[i].1);
            }
            i = i + 1;
        }
        proof {
            lemma_map_of_contains(self.pairs.deep_view(), key.deep_view());
        }
        None
    }
}

/// The interleaved encodings of the pairs of `prs`: key then value, pair
/// by pair.
pub open spec fn enc_pairs<K: DiskSer, V: DiskSer>(prs: Seq<(K, V)>) -> Seq<u8>
    decreases prs.len(),
{
    if prs.len() == 0 {
        Seq::empty()
    } else {
        prs[0].0.enc() + prs[0].1.enc() + enc_pairs(prs.skip(1))
    }
}

/// Appending one pair appends its two encodings.
pub proof fn lemma_enc_pairs_push<K: DiskSer, V: DiskSer>(prs: Seq<(K, V)>, p: (K, V))
    ensures
        enc_pairs(prs.push(p)) == enc_pairs(prs) + p.0.enc() + p.1.enc(),
    decreases prs.len(),
{
    if prs.len() == 0 {
        assert(prs.push(p).skip(1) =~= Seq::<(K, V)>::empty());
        assert(enc_pairs(Seq::<(K, V)>::empty()) == Seq::<u8>::empty());
        assert(prs =~= Seq::<(K, V)>::empty());
        assert(enc_pairs(prs.push(p)) =~= enc_pairs(prs) + p.0.enc() + p.1.enc());
    } else {
        assert(prs.push(p).skip(1) =~= prs.skip(1).push(p));
        lemma_enc_pairs_push(prs.skip(1), p);
        assert(enc_pairs(prs.push(p)) =~= enc_pairs(prs) + p.0.enc() + p.1.enc());
    }
}

/// A pair sequence's encoding splits at any index.
pub proof fn lemma_enc_pairs_split<K: DiskSer, V: DiskSer>(prs: Seq<(K, V)>, i: int)
    requires
        0 <= i <= prs.len(),
    ensures
        enc_pairs(prs) == enc_pairs(prs.take(i)) + enc_pairs(prs.skip(i)),
    decreases i,
{
    if i == 0 {
        assert(prs.take(0) =~= Seq::<(K, V)>::empty());
        assert(prs.skip(0) =~= prs);
        assert(enc_pairs(prs) =~= enc_pairs(prs.take(0)) + enc_pairs(prs.skip(0)));
    } else {
        lemma_enc_pairs_split(prs, i - 1);
        let suf = prs.skip(i - 1);
        assert(suf[0] == prs[i - 1]);
        assert(suf.skip(1) =~= prs.skip(i));
        assert(enc_pairs(suf) == prs[i - 1].0.enc() + prs[i - 1].1.enc() + enc_pairs(
            prs.skip(i),
        ));
        assert(prs.take(i) =~= prs.take(i - 1).push(prs[i - 1]));
        lemma_enc_pairs_push(prs.take(i - 1), prs[i - 1]);
        assert(enc_pairs(prs) =~= enc_pairs(prs.take(i)) + enc_pairs(prs.skip(i)));
    }
}

/// The outcome of greedily decoding key/value pairs from `s` until its
/// clean end, as the sequence of decoded pairs in stream order. A clean
/// end where a value was owed is a truncation error. The guards keep the
/// recursion well founded; for self-delimiting keys and values the guarded
/// branches are never taken.
pub open spec fn dec_pairs<K: DiskSer, V: DiskSer>(s: Seq<u8>) -> Decoded<
    Seq<(K::V, V::V)>,
    int,
>
    decreases s.len(),
{
    match K::dec(s) {
        Decoded::Clean => Decoded::Value(Seq::empty(), 0),
        Decoded::Fail(e) => Decoded::Fail(e),
        Decoded::Value(kv, nk) => {
            if 1 <= nk <= s.len() {
                match V::dec(s.skip(nk)) {
                    Decoded::Clean => Decoded::Fail(DiskError::Truncated),
                    Decoded::Fail(e) => Decoded::Fail(e),
                    Decoded::Value(vv, nv) => {
                        if 0 <= nv <= s.len() - nk {
                            match dec_pairs::<K, V>(s.skip(nk).skip(nv)) {
                                Decoded::Value(tail, m) => Decoded::Value(
                                    seq![(kv, vv)] + tail,
                                    nk + nv + m,
                                ),
                                Decoded::Fail(e) => Decoded::Fail(e),
                                Decoded::Clean => Decoded::Fail(DiskError::Truncated),
                            }
                        } else {
                            Decoded::Fail(DiskError::Truncated)
                        }
                    },
                }
            } else {
                Decoded::Fail(DiskError::Truncated)
            }
        },
    }
}

/// Greedy pair decoding never reports a clean end: an empty stream is a
/// valid (empty) mapping.
pub proof fn lemma_dec_pairs_not_clean<K: DiskSer, V: DiskSer>(s: Seq<u8>)
    ensures
        !(dec_pairs::<K, V>(s) is Clean),
{
}

/// The invariant of the mapping decode loop: `cur` is what is left of
/// `pre`, the pairs `done` have been decoded, and finishing the decode of
/// `cur` finishes the decode of `pre`.
pub open spec fn map_loop_inv<K: DiskSer, V: DiskSer>(
    pre: Seq<u8>,
    cur: Seq<u8>,
    done: Seq<(K::V, V::V)>,
) -> bool {
    &&& cur.len() <= pre.len()
    &&& pre.skip(pre.len() - cur.len()) == cur
    &&& match dec_pairs::<K, V>(cur) {
        Decoded::Value(tail, m) => dec_pairs::<K, V>(pre) == Decoded::Value(
            done + tail,
            pre.len() - cur.len() + m,
        ),
        Decoded::Fail(e) => dec_pairs::<K, V>(pre) == Decoded::<Seq<(K::V, V::V)>, int>::Fail(e),
        Decoded::Clean => false,
    }
}

impl<K: DiskKey, V: SelfDelimited> DiskSer for DiskMap<K, V> {
    closed spec fn wf(&self) -> bool {
        &&& uniq_keys(self.pairs.deep_view())
        &&& forall|i: int|
            0 <= i < self.pairs@.len() ==> #[trigger] self.pairs@[i].0.wf() && self.pairs@[i].1.wf()
    }

    closed spec fn enc(&self) -> Seq<u8> {
        enc_pairs(self.pairs@)
    }

    open spec fn dec(s: Seq<u8>) -> Decoded<Map<K::V, V::V>, int> {
        match dec_pairs::<K, V>(s) {
            Decoded::Value(prs, m) => Decoded::Value(map_of(prs), m),
            Decoded::Fail(e) => Decoded::Fail(e),
            Decoded::Clean => Decoded::Fail(DiskError::Truncated),
        }
    }

    fn disk_serialize(&self, sink: &mut Vec<u8>) -> (n: usize) {
        let ghost sink0 = sink@;
        let mut n: usize = 0;
        let mut i: usize = 0;
        while i < self.pairs.len()
            invariant
                self.wf(),
                i <= self.pairs@.len(),
                sink0.len() + enc_pairs(self.pairs@).len() <= usize::MAX,
                sink@ == sink0 + enc_pairs(self.pairs@.take(i as int)),
                n == enc_pairs(self.pairs@.take(i as int)).len(),
            decreases self.pairs@.len() - i,
        {
            proof {
                lemma_enc_pairs_split(self.pairs@, i as int);
                let suf = self.pairs@.skip(i as int);
                assert(suf[0] == self.pairs@[i as int]);
                assert(suf.skip(1) =~= self.pairs@.skip(i + 1));
                assert(enc_pairs(suf) == self.pairs@[i as int].0.enc()
                    + self.pairs@[i as int].1.enc() + enc_pairs(self.pairs@.skip(i + 1)));
            }
            let nk = self.pairs[i].0.disk_serialize(sink);
            let nv = self.pairs[i].1.disk_serialize(sink);
            proof {
                lemma_enc_pairs_push(self.pairs@.take(i as int), self.pairs@[i as int]);
                assert(self.pairs@.take(i + 1) =~= self.pairs@.take(i as int).push(
                    self.pairs@[i as int],
                ));
                assert(sink@ =~= sink0 + enc_pairs(self.pairs@.take(i + 1)));
            }
            n = n + nk;
            n = n + nv;
            i = i + 1;
        }
        proof {
            assert(self.pairs@.take(i as int) =~= self.pairs@);
        }
        n
    }

    fn disk_deserialize(source: &mut ByteSource) -> (r: Result<Option<DiskMap<K, V>>, DiskError>) {
        let ghost pre = source@;
        let mut res = DiskMap::<K, V>::new();
        let ghost mut done: Seq<(K::V, V::V)> = Seq::empty();
        proof {
            lemma_dec_pairs_not_clean::<K, V>(pre);
            if let Decoded::Value(tail, m) = dec_pairs::<K, V>(pre) {
                assert(done + tail =~= tail);
                assert(dec_pairs::<K, V>(pre) =~= Decoded::Value(done + tail, m));
            }
            assert(pre.skip(0) =~= pre);
        }
        loop
            invariant
                pre == old(source)@,
                res.wf(),
                res.deep_view() == map_of(done),
                map_loop_inv::<K, V>(pre, source@, done),
            decreases source@.len(),
        {
            let ghost cur0 = source@;
            match K::disk_deserialize(source) {
                Err(e) => {
                    return Err(e);
                },
                Ok(None) => {
                    proof {
                        K::lemma_dec_clean(cur0);
                        assert(done + Seq::<(K::V, V::V)>::empty() =~= done);
                        assert(dec_pairs::<K, V>(pre) =~= Decoded::Value(
                            done,
                            pre.len() - cur0.len(),
                        ));
                    }
                    return Ok(Some(res));
                },
                Ok(Some(k)) => {
                    proof {
                        K::lemma_dec_bounds(cur0);
                    }
                    let ghost cur1 = source@;
                    match V::disk_deserialize(source) {
                        Err(e) => {
                            return Err(e);
                        },
                        Ok(None) => {
                            proof {
                                V::lemma_dec_clean(cur1);
                            }
                            return Err(DiskError::Truncated);
                        },
                        Ok(Some(v)) => {
                            proof {
                                V::lemma_dec_bounds(cur1);
                            }
                            let ghost kv = k.deep_view();
                            let ghost vv = v.deep_view();
                            res.insert(k, v);
                            proof {
                                let nk = cur0.len() - cur1.len();
                                let cur2 = source@;
                                let nv = cur1.len() - cur2.len();
                                let done0 = done;
                                done = done.push((kv, vv));
                                assert(done.drop_last() =~= done0);
                                assert(map_of(done) == map_of(done0).insert(kv, vv));
                                assert(res.deep_view() == map_of(done));
                                lemma_dec_pairs_not_clean::<K, V>(cur2);
                                assert(cur2 =~= cur0.skip(nk).skip(nv));
                                assert(pre.skip(pre.len() - cur2.len()) =~= cur2);
                                if let Decoded::Value(tail2, m2) = dec_pairs::<K, V>(cur2) {
                                    assert(dec_pairs::<K, V>(cur0) =~= Decoded::Value(
                                        seq![(kv, vv)] + tail2,
                                        nk + nv + m2,
                                    ));
                                    assert(done0 + (seq![(kv, vv)] + tail2) =~= done + tail2);
                                    assert(dec_pairs::<K, V>(pre) =~= Decoded::Value(
                                        done + tail2,
                                        pre.len() - cur2.len() + m2,
                                    ));
                                }
                            }
                        },
                    }
                },
            }
        }
    }
}

/// Decoding the interleaved encodings of a sequence of well-formed pairs
/// reproduces those pairs, in stream order, consuming the whole stream.
pub proof fn lemma_pairs_round_trip<K: DiskKey, V: SelfDelimited>(prs: Seq<(K, V)>)
    requires
        forall|i: int| 0 <= i < prs.len() ==> #[trigger] prs[i].0.wf() && prs[i].1.wf(),
    ensures
        dec_pairs::<K, V>(enc_pairs(prs)) == Decoded::Value(
            Seq::new(prs.len(), |i: int| (prs[i].0.deep_view(), prs[i].1.deep_view())),
            enc_pairs(prs).len() as int,
        ),
    decreases prs.len(),
{
    let views = Seq::new(prs.len(), |i: int| (prs[i].0.deep_view(), prs[i].1.deep_view()));
    if prs.len() == 0 {
        K::lemma_dec_clean(enc_pairs(prs));
        assert(views =~= Seq::<(K::V, V::V)>::empty());
        assert(dec_pairs::<K, V>(enc_pairs(prs)) =~= Decoded::Value(views, 0));
    } else {
        let hk = prs[0].0;
        let hv = prs[0].1;
        assert(prs[0].0.wf() && prs[0].1.wf());
        let tail = prs.skip(1);
        let s = enc_pairs(prs);
        assert(s == hk.enc() + hv.enc() + enc_pairs(tail));
        assert(s =~= hk.enc() + (hv.enc() + enc_pairs(tail)));
        hk.lemma_dec_prefix(hv.enc() + enc_pairs(tail));
        hk.lemma_enc_len();
        assert(s.skip(hk.enc().len() as int) =~= hv.enc() + enc_pairs(tail));
        hv.lemma_dec_prefix(enc_pairs(tail));
        hv.lemma_enc_len();
        assert(s.skip(hk.enc().len() as int).skip(hv.enc().len() as int) =~= enc_pairs(tail));
        assert(forall|i: int| 0 <= i < tail.len() ==> #[trigger] tail[i].0.wf() && tail[i].1.wf());
        lemma_pairs_round_trip::<K, V>(tail);
        assert(seq![(hk.deep_view(), hv.deep_view())] + Seq::new(
            tail.len(),
            |i: int| (tail[i].0.deep_view(), tail[i].1.deep_view()),
        ) =~= views);
        assert(dec_pairs::<K, V>(s) =~= Decoded::Value(views, s.len() as int));
    }
}

/// The mapping round trip: encoding a well-formed mapping, in whatever
/// order its pairs stand, and decoding a stream holding precisely those
/// bytes reproduces the same key-to-value associations.
pub proof fn lemma_map_round_trip<K: DiskKey, V: SelfDelimited>(m: DiskMap<K, V>)
    requires
        m.wf(),
    ensures
        DiskMap::<K, V>::dec(m.enc()) == Decoded::Value(m.deep_view(), m.enc().len() as int),
{
    lemma_pairs_round_trip::<K, V>(m.pairs@);
    assert(Seq::new(m.pairs@.len(), |i: int| (m.pairs@[i].0.deep_view(), m.pairs@[i].1.deep_view()))
        =~= m.pairs.deep_view());
}

/// A stream holding one well-formed encoded key and zero further bytes,
/// decoded as a mapping, is a truncation error: the key's value is owed.
pub proof fn lemma_key_without_value<K: DiskKey, V: SelfDelimited>(k: K)
    requires
        k.wf(),
    ensures
        DiskMap::<K, V>::dec(k.enc()) == Decoded::<Map<K::V, V::V>, int>::Fail(DiskError::Truncated),
{
    k.lemma_dec_prefix(Seq::empty());
    k.lemma_enc_len();
    assert(k.enc() + Seq::empty() =~= k.enc());
    let s = k.enc();
    V::lemma_dec_clean(s.skip(s.len() as int));
}

} // verus!
