//! The client side of a transfer: a pre-sized sink assembled from received
//! chunks, with the set of offsets still outstanding, a cache of chunks not
//! yet flushed, proofs that the assembly is faithful and in bounds, and the
//! engine that drives the sink from arriving datagrams.
use vstd::prelude::*;
use vstd::utf8::{decode_utf8, encode_utf8, valid_utf8};

use crate::connection::{replay_to, spec_last_sent, spec_window, Connection, DATA_SIZE};
use crate::decimal::{dec_value, is_dec_chars};
use crate::parsing::{get_primitive, last_received_packet, parse_data_packet, parse_primitive,
    send_req};
use crate::parsing::{ack_bytes, end_bytes, last_received_chars, nack_bytes, send_req_chars};
use crate::parsing::{offset_tag, spec_parse_primitive, ClientState, PrimitiveMessage};
use crate::search::{find_first, seg_after, upto_newline};
use crate::socket::{PeerAddr, Socket};

verus! {

/// How many chunks a file of `filesize` bytes is cut into: one for every
/// full window of `DATA_SIZE` bytes, and a final (possibly empty) tail.
pub open spec fn num_chunks(filesize: nat) -> nat {
    filesize / (DATA_SIZE as nat) + 1
}

/// The number of bytes of chunk `k`: a full `DATA_SIZE`, or whatever the
/// file still has at the tail.
pub open spec fn chunk_len(filesize: nat, k: nat) -> nat {
    if (k + 1) * (DATA_SIZE as nat) <= filesize {
        DATA_SIZE as nat
    } else if k * (DATA_SIZE as nat) <= filesize {
        (filesize - k * (DATA_SIZE as nat)) as nat
    } else {
        0
    }
}

/// A chunk lies inside the file.
pub proof fn lemma_chunk_in_range(filesize: nat, k: nat)
    requires
        k * (DATA_SIZE as nat) <= filesize,
    ensures
        k * (DATA_SIZE as nat) + chunk_len(filesize, k) <= filesize,
        chunk_len(filesize, k) <= DATA_SIZE,
{
}

/// `data` with `bytes` written at `off`, all other bytes kept.
pub open spec fn write_chunk(data: Seq<u8>, off: int, bytes: Seq<u8>) -> Seq<u8> {
    Seq::new(
        data.len(),
        |i: int|
            if off <= i < off + bytes.len() {
                bytes[i - off]
            } else {
                data[i]
            },
    )
}

/// `data` with every cached chunk written at its offset, first first.
pub open spec fn flush_cache(data: Seq<u8>, cache: Seq<(usize, Vec<u8>)>) -> Seq<u8>
    decreases cache.len(),
{
    if cache.len() == 0 {
        data
    } else {
        flush_cache(write_chunk(data, cache[0].0 as int, cache[0].1@), cache.drop_first())
    }
}

/// Flushing does not change the length of the buffer.
pub proof fn lemma_flush_len(data: Seq<u8>, cache: Seq<(usize, Vec<u8>)>)
    ensures
        flush_cache(data, cache).len() == data.len(),
    decreases cache.len(),
{
    if cache.len() > 0 {
        lemma_flush_len(write_chunk(data, cache[0].0 as int, cache[0].1@), cache.drop_first());
    }
}

/// Whether some entry of `cache` writes position `i`.
pub open spec fn covers(cache: Seq<(usize, Vec<u8>)>, i: int) -> bool {
    exists|j: int|
        0 <= j < cache.len() && (#[trigger] cache[j]).0 <= i < cache[j].0 + cache[j].1@.len()
}

/// A position no cached chunk writes keeps its byte through a flush.
pub proof fn lemma_flush_uncovered(data: Seq<u8>, cache: Seq<(usize, Vec<u8>)>, i: int)
    requires
        0 <= i < data.len(),
        !covers(cache, i),
    ensures
        flush_cache(data, cache)[i] == data[i],
    decreases cache.len(),
{
    if cache.len() > 0 {
        let d1 = write_chunk(data, cache[0].0 as int, cache[0].1@);
        assert(!(cache[0].0 <= i < cache[0].0 + cache[0].1@.len()));
        assert(d1[i] == data[i]);
        assert forall|j: int|
            0 <= j < cache.drop_first().len() implies !((#[trigger] cache.drop_first()[j]).0 <= i
            < cache.drop_first()[j].0 + cache.drop_first()[j].1@.len()) by {
            assert(cache.drop_first()[j] == cache[j + 1]);
        }
        lemma_flush_uncovered(d1, cache.drop_first(), i);
    }
}

/// A position exactly one cached chunk writes ends up with that chunk's
/// byte after a flush.
pub proof fn lemma_flush_covered(data: Seq<u8>, cache: Seq<(usize, Vec<u8>)>, j: int, i: int)
    requires
        0 <= i < data.len(),
        0 <= j < cache.len(),
        cache[j].0 <= i < cache[j].0 + cache[j].1@.len(),
        forall|j2: int|
            0 <= j2 < cache.len() && j2 != j ==> !((#[trigger] cache[j2]).0 <= i < cache[j2].0
                + cache[j2].1@.len()),
    ensures
        flush_cache(data, cache)[i] == cache[j].1@[i - cache[j].0],
    decreases cache.len(),
{
    let d1 = write_chunk(data, cache[0].0 as int, cache[0].1@);
    if j == 0 {
        assert(d1[i] == cache[0].1@[i - cache[0].0]);
        assert forall|j2: int|
            0 <= j2 < cache.drop_first().len() implies !((#[trigger] cache.drop_first()[j2]).0 <= i
            < cache.drop_first()[j2].0 + cache.drop_first()[j2].1@.len()) by {
            assert(cache.drop_first()[j2] == cache[j2 + 1]);
        }
        lemma_flush_uncovered(d1, cache.drop_first(), i);
    } else {
        assert(d1[i] == data[i] || d1[i] == cache[0].1@[i - cache[0].0]);
        assert(cache.drop_first()[j - 1] == cache[j]);
        assert forall|j2: int|
            0 <= j2 < cache.drop_first().len() && j2 != j - 1 implies !((#[trigger] cache.drop_first()[j2]).0
            <= i < cache.drop_first()[j2].0 + cache.drop_first()[j2].1@.len()) by {
            assert(cache.drop_first()[j2] == cache[j2 + 1]);
        }
        lemma_flush_covered(d1, cache.drop_first(), j - 1, i);
    }
}

/// How many chunks of `s` are still missing.
pub open spec fn count_missing(s: Seq<bool>) -> nat
    decreases s.len(),
{
    if s.len() == 0 {
        0
    } else {
        count_missing(s.drop_last()) + (if s.last() {
            0nat
        } else {
            1nat
        })
    }
}

/// The client-side sink a received file is assembled in.
pub struct FileSink {
    pub filesize: usize,
    pub data: Vec<u8>,
    pub received: Vec<bool>,
    pub cache: Vec<(usize, Vec<u8>)>,
    pub counter: usize,
}

impl FileSink {
    /// The buffer has exactly the announced size; there is one received
    /// mark per chunk; every cached chunk is an accepted, chunk-aligned,
    /// full-length piece, each chunk cached at most once; the counter
    /// counts the chunks cached since the last flush.
    pub open spec fn wf(self) -> bool {
        &&& self.data@.len() == self.filesize
        &&& self.received@.len() == num_chunks(self.filesize as nat)
        &&& self.counter == self.cache@.len()
        &&& forall|j: int|
            0 <= j < self.cache@.len() ==> {
                let e = #[trigger] self.cache@[j];
                &&& e.0 % DATA_SIZE == 0
                &&& e.0 <= self.filesize
                &&& self.received@[e.0 as int / DATA_SIZE as int]
                &&& e.1@.len() == chunk_len(self.filesize as nat, (e.0 / DATA_SIZE) as nat)
            }
        &&& forall|j1: int, j2: int|
            0 <= j1 < j2 < self.cache@.len() ==> (#[trigger] self.cache@[j1]).0
                != (#[trigger] self.cache@[j2]).0
    }

    /// Whether the chunk at `off` has not yet been received and accepted.
    pub open spec fn outstanding_offset(self, off: int) -> bool {
        &&& off % (DATA_SIZE as int) == 0
        &&& 0 <= off <= self.filesize
        &&& !self.received@[off / (DATA_SIZE as int)]
    }

    /// Whether the sink agrees with `source` everywhere it has received
    /// something: cached chunks carry the source's bytes for their range,
    /// and flushed positions already hold them.
    pub open spec fn matches_source(self, source: Seq<u8>) -> bool {
        &&& source.len() == self.filesize
        &&& forall|j: int|
            0 <= j < self.cache@.len() ==> (#[trigger] self.cache@[j]).1@ == source.subrange(
                self.cache@[j].0 as int,
                self.cache@[j].0 + self.cache@[j].1@.len(),
            )
        &&& forall|i: int|
            0 <= i < source.len() && self.received@[i / (DATA_SIZE as int)] && !covers(
                self.cache@,
                i,
            ) ==> #[trigger] self.data@[i] == source[i]
    }

    /// Builds the sink for a file of `filesize` bytes: a zeroed buffer of
    /// that size, with every chunk offset outstanding.
    pub fn new(filesize: usize) -> (r: FileSink)
        ensures
            r.wf(),
            r.filesize == filesize,
            r.cache@.len() == 0,
            r.counter == 0,
            forall|i: int| 0 <= i < r.data@.len() ==> r.data@[i] == 0u8,
            forall|k: int| 0 <= k < r.received@.len() ==> !r.received@[k],
            forall|source: Seq<u8>| source.len() == filesize ==> r.matches_source(source),
    {
        let chunks = filesize / DATA_SIZE + 1;
        let r = FileSink {
            filesize,
            data: vec![0u8; filesize],
            received: vec![false; chunks],
            cache: Vec::new(),
            counter: 0,
        };
        proof {
            assert forall|source: Seq<u8>| source.len() == filesize implies r.matches_source(
                source,
            ) by {
                assert(forall|i: int|
                    0 <= i < source.len() ==> !r.received@[#[trigger] (i / (DATA_SIZE as int))]);
            }
        }
        r
    }

    /// Takes one arriving chunk. It is accepted exactly when its offset is
    /// still outstanding and it has its chunk's full length; an accepted
    /// chunk leaves the outstanding set and enters the cache. Anything
    /// else, a duplicate above all, leaves the sink exactly as it was.
    pub fn accept_data(&mut self, offset: usize, bytes: &Vec<u8>) -> (r: bool)
        requires
            old(self).wf(),
        ensures
            final(self).wf(),
            r <==> old(self).outstanding_offset(offset as int) && bytes@.len() == chunk_len(
                old(self).filesize as nat,
                (offset / DATA_SIZE) as nat,
            ),
            !r ==> *final(self) == *old(self),
            r ==> {
                &&& final(self).filesize == old(self).filesize
                &&& final(self).data == old(self).data
                &&& final(self).received@ == old(self).received@.update(
                    offset as int / DATA_SIZE as int,
                    true,
                )
                &&& final(self).cache@.len() == old(self).cache@.len() + 1
                &&& final(self).cache@.last().0 == offset
                &&& final(self).cache@.last().1@ == bytes@
                &&& forall|j: int|
                    0 <= j < old(self).cache@.len() ==> final(self).cache@[j] == old(
                        self,
                    ).cache@[j]
                &&& final(self).counter == old(self).counter + 1
            },
            forall|source: Seq<u8>|
                old(self).matches_source(source) && bytes@ == source.subrange(
                    offset as int,
                    offset + bytes@.len(),
                ) ==> final(self).matches_source(source),
    {
        if offset % DATA_SIZE != 0 {
            return false;
        }
        if offset > self.filesize {
            return false;
        }
        let k = offset / DATA_SIZE;
        proof {
            assert(k <= self.filesize / DATA_SIZE) by (nonlinear_arith)
                requires
                    k == offset / DATA_SIZE,
                    offset <= self.filesize,
                    DATA_SIZE == 1000,
            ;
        }
        if self.received[k] {
            return false;
        }
        let expected = if self.filesize - offset >= DATA_SIZE {
            DATA_SIZE
        } else {
            self.filesize - offset
        };
        proof {
            assert(offset == k * DATA_SIZE && expected == chunk_len(
                self.filesize as nat,
                k as nat,
            )) by (nonlinear_arith)
                requires
                    k == offset / DATA_SIZE,
                    offset % DATA_SIZE == 0,
                    offset <= self.filesize,
                    DATA_SIZE == 1000,
                    expected == (if self.filesize - offset >= DATA_SIZE {
                        DATA_SIZE as int
                    } else {
                        self.filesize - offset
                    }),
            ;
        }
        if bytes.len() != expected {
            return false;
        }
        let copy = crate::parsing::copy_range(bytes.as_slice(), 0, bytes.len());
        proof {
            assert(copy@ =~= bytes@);
        }
        self.received[k] = true;
        self.cache.push((offset, copy));
        self.counter = self.cache.len();
        proof {
            let s = *self;
            let s0 = *old(self);
            assert forall|j: int| 0 <= j < s.cache@.len() implies {
                let e = #[trigger] s.cache@[j];
                &&& e.0 % DATA_SIZE == 0
                &&& e.0 <= s.filesize
                &&& s.received@[e.0 as int / DATA_SIZE as int]
                &&& e.1@.len() == chunk_len(s.filesize as nat, (e.0 / DATA_SIZE) as nat)
            } by {
                if j < s0.cache@.len() {
                    assert(s.cache@[j] == s0.cache@[j]);
                }
            }
            assert forall|j1: int, j2: int| 0 <= j1 < j2 < s.cache@.len() implies (
            #[trigger] s.cache@[j1]).0 != (#[trigger] s.cache@[j2]).0 by {
                if j2 == s.cache@.len() - 1 {
                    assert(s0.received@[(s0.cache@[j1].0 / DATA_SIZE) as int]);
                }
            }
            assert forall|source: Seq<u8>|
                s0.matches_source(source) && bytes@ == source.subrange(
                    offset as int,
                    offset + bytes@.len(),
                ) implies s.matches_source(source) by {
                assert forall|i: int|
                    0 <= i < source.len() && s.received@[i / (DATA_SIZE as int)] && !covers(
                        s.cache@,
                        i,
                    ) implies #[trigger] s.data@[i] == source[i] by {
                    if i / (DATA_SIZE as int) == k {
                        assert(offset <= i < offset + expected) by (nonlinear_arith)
                            requires
                                i / (DATA_SIZE as int) == k,
                                offset == k * DATA_SIZE,
                                0 <= i < source.len() == s.filesize,
                                DATA_SIZE == 1000,
                                expected == chunk_len(s.filesize as nat, k as nat),
                        ;
                        let jn = s.cache@.len() - 1;
                        assert((s.cache@[jn]).0 <= i < s.cache@[jn].0 + s.cache@[jn].1@.len());
                        assert(covers(s.cache@, i));
                    } else {
                        assert(s0.received@[i / (DATA_SIZE as int)]);
                        if covers(s0.cache@, i) {
                            let j = choose|j: int|
                                0 <= j < s0.cache@.len() && (#[trigger] s0.cache@[j]).0 <= i
                                    < s0.cache@[j].0 + s0.cache@[j].1@.len();
                            assert(s.cache@[j] == s0.cache@[j]);
                            assert(covers(s.cache@, i));
                        }
                    }
                }
            }
        }
        true
    }

    /// Writes every cached chunk into the buffer at its offset and empties
    /// the cache. Bytes no cached chunk covers are untouched, and every
    /// write stays inside the buffer: nothing is ever written outside the
    /// file.
    pub fn flush(&mut self)
        requires
            old(self).wf(),
        ensures
            final(self).wf(),
            final(self).filesize == old(self).filesize,
            final(self).received == old(self).received,
            final(self).cache@.len() == 0,
            final(self).counter == 0,
            final(self).data@ == flush_cache(old(self).data@, old(self).cache@),
            final(self).data@.len() == old(self).data@.len(),
            forall|i: int|
                0 <= i < old(self).data@.len() && !covers(old(self).cache@, i)
                    ==> final(self).data@[i] == old(self).data@[i],
            forall|source: Seq<u8>|
                old(self).matches_source(source) ==> final(self).matches_source(source),
    {
        let m = self.cache.len();
        proof {
            assert(self.cache@.subrange(0, m as int) =~= self.cache@);
        }
        let mut j: usize = 0;
        while j < m
            invariant
                0 <= j <= m,
                m == self.cache@.len(),
                self.cache == old(self).cache,
                self.received == old(self).received,
                self.filesize == old(self).filesize,
                self.counter == old(self).counter,
                old(self).wf(),
                self.data@.len() == old(self).data@.len(),
                flush_cache(old(self).data@, old(self).cache@) == flush_cache(
                    self.data@,
                    self.cache@.subrange(j as int, m as int),
                ),
            decreases m - j,
        {
            let ghost dpre = self.data@;
            let off = self.cache[j].0;
            let blen = self.cache[j].1.len();
            proof {
                assert(off % DATA_SIZE == 0 && off <= self.filesize);
                assert(off == (off / DATA_SIZE) * DATA_SIZE) by (nonlinear_arith)
                    requires
                        off % DATA_SIZE == 0,
                        DATA_SIZE == 1000,
                ;
                lemma_chunk_in_range(self.filesize as nat, (off / DATA_SIZE) as nat);
            }
            let dn = self.data.len();
            let mut t: usize = 0;
            while t < blen
                invariant
                    0 <= t <= blen,
                    j < self.cache@.len(),
                    off == self.cache@[j as int].0,
                    blen == self.cache@[j as int].1@.len(),
                    off + blen <= dn,
                    dn == self.data@.len(),
                    self.cache == old(self).cache,
                    self.received == old(self).received,
                    self.filesize == old(self).filesize,
                    self.counter == old(self).counter,
                    self.data@.len() == dpre.len(),
                    forall|i: int| off <= i < off + t ==> self.data@[i] == self.cache@[j as int].1@[i - off],
                    forall|i: int|
                        0 <= i < self.data@.len() && !(off <= i < off + t) ==> self.data@[i]
                            == dpre[i],
                decreases blen - t,
            {
                let b = self.cache[j].1[t];
                self.data[off + t] = b;
                t = t + 1;
            }
            proof {
                assert(self.data@ =~= write_chunk(dpre, off as int, self.cache@[j as int].1@));
                assert(self.cache@.subrange(j as int, m as int).drop_first() =~= self.cache@.subrange(
                    j + 1,
                    m as int,
                ));
                assert(self.cache@.subrange(j as int, m as int)[0] == self.cache@[j as int]);
            }
            j = j + 1;
        }
        proof {
            assert(self.cache@.subrange(m as int, m as int) =~= Seq::<(usize, Vec<u8>)>::empty());
        }
        self.cache.clear();
        self.counter = 0;
        proof {
            let s = *self;
            let s0 = *old(self);
            lemma_flush_len(s0.data@, s0.cache@);
            assert forall|i: int|
                0 <= i < s0.data@.len() && !covers(s0.cache@, i) implies s.data@[i]
                == s0.data@[i] by {
                lemma_flush_uncovered(s0.data@, s0.cache@, i);
            }
            assert forall|source: Seq<u8>| s0.matches_source(source) implies s.matches_source(
                source,
            ) by {
                assert forall|i: int|
                    0 <= i < source.len() && s.received@[i / (DATA_SIZE as int)] && !covers(
                        s.cache@,
                        i,
                    ) implies #[trigger] s.data@[i] == source[i] by {
                    if covers(s0.cache@, i) {
                        let j = choose|j: int|
                            0 <= j < s0.cache@.len() && (#[trigger] s0.cache@[j]).0 <= i
                                < s0.cache@[j].0 + s0.cache@[j].1@.len();
                        assert forall|j2: int|
                            0 <= j2 < s0.cache@.len() && j2 != j implies !((
                        #[trigger] s0.cache@[j2]).0 <= i < s0.cache@[j2].0
                            + s0.cache@[j2].1@.len()) by {
                            if (s0.cache@[j2]).0 <= i < s0.cache@[j2].0 + s0.cache@[j2].1@.len() {
                                let o1 = s0.cache@[j].0 as int;
                                let o2 = s0.cache@[j2].0 as int;
                                let l1 = s0.cache@[j].1@.len() as int;
                                let l2 = s0.cache@[j2].1@.len() as int;
                                assert(l1 <= 1000 && l2 <= 1000) by {
                                    lemma_chunk_in_range(
                                        s0.filesize as nat,
                                        (s0.cache@[j].0 / DATA_SIZE) as nat,
                                    );
                                    lemma_chunk_in_range(
                                        s0.filesize as nat,
                                        (s0.cache@[j2].0 / DATA_SIZE) as nat,
                                    );
                                }
                                assert(o1 == o2) by (nonlinear_arith)
                                    requires
                                        o1 % 1000 == 0,
                                        o2 % 1000 == 0,
                                        o1 <= i < o1 + l1,
                                        o2 <= i < o2 + l2,
                                        l1 <= 1000,
                                        l2 <= 1000,
                                ;
                            }
                        }
                        lemma_flush_covered(s0.data@, s0.cache@, j, i);
                        assert(s0.cache@[j].1@ == source.subrange(
                            s0.cache@[j].0 as int,
                            s0.cache@[j].0 + s0.cache@[j].1@.len(),
                        ));
                        assert(s0.cache@[j].1@[i - s0.cache@[j].0] == source.subrange(
                            s0.cache@[j].0 as int,
                            s0.cache@[j].0 + s0.cache@[j].1@.len(),
                        )[i - s0.cache@[j].0]);
                    } else {
                        lemma_flush_uncovered(s0.data@, s0.cache@, i);
                    }
                }
            }
        }
    }

    /// Whether every chunk has been received.
    pub fn is_complete(&self) -> (r: bool)
        ensures
            r <==> forall|k: int| 0 <= k < self.received@.len() ==> self.received@[k],
    {
        let n = self.received.len();
        let mut i: usize = 0;
        while i < n
            invariant
                0 <= i <= n,
                n == self.received@.len(),
                forall|k: int| 0 <= k < i ==> self.received@[k],
            decreases n - i,
        {
            if !self.received[i] {
                return false;
            }
            i = i + 1;
        }
        true
    }

    /// Whether the chunk at `offset` is still outstanding.
    pub fn is_outstanding(&self, offset: usize) -> (r: bool)
        requires
            self.wf(),
        ensures
            r <==> self.outstanding_offset(offset as int),
    {
        if offset % DATA_SIZE != 0 {
            return false;
        }
        if offset > self.filesize {
            return false;
        }
        let k = offset / DATA_SIZE;
        proof {
            assert(k <= self.filesize / DATA_SIZE) by (nonlinear_arith)
                requires
                    k == offset / DATA_SIZE,
                    offset <= self.filesize,
                    DATA_SIZE == 1000,
            ;
        }
        !self.received[k]
    }

    /// How many chunks are still outstanding.
    pub fn outstanding_count(&self) -> (r: usize)
        ensures
            r as nat == count_missing(self.received@),
    {
        let n = self.received.len();
        let mut cnt: usize = 0;
        let mut i: usize = 0;
        while i < n
            invariant
                0 <= i <= n,
                n == self.received@.len(),
                cnt <= i,
                cnt as nat == count_missing(self.received@.subrange(0, i as int)),
            decreases n - i,
        {
            proof {
                let pre = self.received@.subrange(0, i as int);
                let ext = self.received@.subrange(0, i + 1);
                assert(ext.drop_last() =~= pre);
            }
            if !self.received[i] {
                cnt = cnt + 1;
            }
            i = i + 1;
        }
        proof {
            assert(self.received@.subrange(0, n as int) =~= self.received@);
        }
        cnt
    }
}


/// Whether every chunk of `sink` has been received.
pub open spec fn sink_complete(sink: FileSink) -> bool {
    forall|k: int| 0 <= k < sink.received@.len() ==> sink.received@[k]
}

/// What a data packet in `amt` leading bytes of `message` carries, or
/// nothing where none is read: the value `parse_data_packet` returns.
pub open spec fn spec_data_packet(message: Seq<u8>, amt: int) -> Option<(int, Seq<u8>)> {
    let pre = message.subrange(0, amt);
    let nl = find_first(pre, seq![10u8]);
    if amt < 0 || amt > message.len() || nl is None {
        None
    } else {
        let header = pre.subrange(0, nl->Some_0 + 1);
        let txt = decode_utf8(header);
        let seg = seg_after(txt, offset_tag());
        let digits = upto_newline(seg->Some_0);
        if valid_utf8(header) && seg is Some && is_dec_chars(digits) && dec_value(digits)
            <= usize::MAX {
            Some((dec_value(digits) as int, pre.subrange(nl->Some_0 + 1, amt)))
        } else {
            None
        }
    }
}

/// The client engine: which peer serves it, where its session stands, the
/// sink the file is assembled in, and the end of the last chunk written.
pub struct Client {
    pub server: PeerAddr,
    pub state: ClientState,
    pub sink: FileSink,
    pub last_end: usize,
}

impl Client {
    /// Mid-transfer the sink is sound.
    pub open spec fn wf(self) -> bool {
        self.state == ClientState::SendFile ==> self.sink.wf()
    }

    /// Opens a transfer: hands the port exactly one request for `filename`
    /// under `authtoken` and waits for the size report, with nothing yet in
    /// the sink.
    pub fn start<T: Socket>(
        conn: &mut Connection<T>,
        server: PeerAddr,
        filename: &String,
        authtoken: &String,
    ) -> (r: Client)
        requires
            old(conn).wf(),
        ensures
            final(conn).wf(),
            final(conn).received == old(conn).received,
            final(conn).sent@ == old(conn).sent@.push(
                (server, encode_utf8(send_req_chars(filename@, authtoken@))),
            ),
            r.wf(),
            r.server == server,
            r.state == ClientState::ACKorNACK,
            r.sink.filesize == 0,
            r.sink.cache@.len() == 0,
            r.sink.counter == 0,
            r.last_end == 0,
    {
        let request = send_req(filename, authtoken);
        conn.send_to(&server, &request);
        Client { server, state: ClientState::ACKorNACK, sink: FileSink::new(0), last_end: 0 }
    }

    /// Answers the size report once the caller has decided: acceptance
    /// builds the sink with every chunk outstanding and hands the port the
    /// acknowledgement and the request for the first batch; refusal hands
    /// it the refusal and the terminal notice, and closes.
    pub fn confirm<T: Socket>(&mut self, conn: &mut Connection<T>, accept: bool, filesize: usize)
        requires
            old(self).state == ClientState::ACKorNACK,
            old(conn).wf(),
        ensures
            final(self).wf(),
            final(conn).wf(),
            final(conn).received == old(conn).received,
            accept ==> final(conn).sent@ == old(conn).sent@.push(
                (old(self).server, ack_bytes()),
            ).push((old(self).server, encode_utf8(last_received_chars(0)))),
            !accept ==> final(conn).sent@ == old(conn).sent@.push(
                (old(self).server, nack_bytes()),
            ).push((old(self).server, end_bytes())),
            final(self).server == old(self).server,
            accept ==> final(self).state == ClientState::SendFile && final(self).sink.filesize
                == filesize && final(self).sink.cache@.len() == 0 && (forall|k: int|
                0 <= k < final(self).sink.received@.len() ==> !final(self).sink.received@[k]) && (
            forall|source: Seq<u8>|
                source.len() == filesize ==> final(self).sink.matches_source(source)),
            !accept ==> final(self).state == ClientState::EndConn,
    {
        if accept {
            self.sink = FileSink::new(filesize);
            let ack = get_primitive(PrimitiveMessage::ACK);
            conn.send_to(&self.server, &ack);
            let first = last_received_packet(0);
            conn.send_to(&self.server, &first);
            self.state = ClientState::SendFile;
            self.last_end = 0;
        } else {
            let nack = get_primitive(PrimitiveMessage::NACK);
            conn.send_to(&self.server, &nack);
            let end = get_primitive(PrimitiveMessage::END);
            conn.send_to(&self.server, &end);
            self.state = ClientState::EndConn;
        }
    }

    /// Takes one datagram mid-transfer. A chunk still outstanding is
    /// accepted and deduplicated into the sink; every full window of
    /// accepted chunks is flushed and the port is handed a progress report;
    /// a resend request replays the last batch; once nothing is
    /// outstanding the port is handed the terminal notice and the session
    /// closes, and an early terminal notice is ignored.
    pub fn handle_packet<T: Socket>(
        &mut self,
        conn: &mut Connection<T>,
        message: &Vec<u8>,
        amt: usize,
    )
        requires
            old(self).state == ClientState::SendFile,
            old(self).wf(),
            old(conn).wf(),
            amt <= message@.len(),
        ensures
            final(self).wf(),
            final(conn).wf(),
            final(self).server == old(self).server,
            final(self).sink.filesize == old(self).sink.filesize,
            final(self).state == ClientState::SendFile || final(self).state
                == ClientState::EndConn,
            final(self).state == ClientState::EndConn ==> sink_complete(final(self).sink),
            final(conn).received == old(conn).received,
            ({
                let prim = spec_parse_primitive(message@, amt as int);
                let parsed = spec_data_packet(message@, amt as int);
                &&& prim == PrimitiveMessage::END ==> final(self).sink == old(self).sink
                    && final(self).last_end == old(self).last_end
                    && final(conn).sent == old(conn).sent
                    && final(self).state == (if sink_complete(old(self).sink) {
                    ClientState::EndConn
                } else {
                    ClientState::SendFile
                })
                &&& prim == PrimitiveMessage::RESEND ==> final(self).sink == old(self).sink
                    && final(self).last_end == old(self).last_end && final(self).state
                    == ClientState::SendFile && final(conn).sent@ == old(conn).sent@ + replay_to(
                    old(self).server,
                    spec_last_sent(old(conn).peers@, old(self).server),
                )
                &&& (prim != PrimitiveMessage::END && prim != PrimitiveMessage::RESEND) ==> {
                    match parsed {
                        None => final(self).sink == old(self).sink
                            && final(self).last_end == old(self).last_end
                            && final(self).state == ClientState::SendFile
                            && final(conn).sent == old(conn).sent,
                        Some((off, body)) => {
                            let ok = 0 <= off <= usize::MAX
                                && old(self).sink.outstanding_offset(off) && body.len()
                                == chunk_len(old(self).sink.filesize as nat, (off as nat) / (
                            DATA_SIZE as nat));
                            let counter1 = if ok {
                                old(self).sink.counter + 1
                            } else {
                                old(self).sink.counter as int
                            };
                            let complete1 = sink_complete(final(self).sink);
                            let flushed = counter1 >= spec_window(
                                old(conn).peers@,
                                old(self).server,
                            ) || complete1;
                            &&& ok ==> final(self).sink.received@
                                == old(self).sink.received@.update(off / (DATA_SIZE as int), true)
                                && final(self).last_end == off + body.len()
                            &&& !ok ==> final(self).sink.received@ == old(self).sink.received@
                                && final(self).last_end == old(self).last_end
                            &&& final(self).state == (if complete1 {
                                ClientState::EndConn
                            } else {
                                ClientState::SendFile
                            })
                            &&& final(conn).sent@ == old(conn).sent@ + (if flushed {
                                seq![
                                    (
                                        old(self).server,
                                        encode_utf8(
                                            last_received_chars(final(self).last_end as nat),
                                        ),
                                    ),
                                ]
                            } else {
                                Seq::<(PeerAddr, Seq<u8>)>::empty()
                            }) + (if complete1 {
                                seq![(old(self).server, end_bytes())]
                            } else {
                                Seq::<(PeerAddr, Seq<u8>)>::empty()
                            })
                        },
                    }
                }
            }),
            forall|source: Seq<u8>|
                old(self).sink.matches_source(source) && (match spec_data_packet(
                    message@,
                    amt as int,
                ) {
                    Some((off, body)) => 0 <= off && off + body.len() <= source.len()
                        ==> body == source.subrange(off, off + body.len()),
                    None => true,
                }) ==> final(self).sink.matches_source(source),
    {
        let prim = parse_primitive(message.as_slice(), amt);
        if prim == PrimitiveMessage::END {
            if self.sink.is_complete() {
                self.state = ClientState::EndConn;
            }
            return;
        }
        if prim == PrimitiveMessage::RESEND {
            conn.resend_to(&self.server);
            return;
        }
        let parsed = match parse_data_packet(message.as_slice(), amt) {
            None => {
                return;
            },
            Some(p) => p,
        };
        let (off, body) = parsed;
        let accepted = self.sink.accept_data(off, &body);
        if accepted {
            self.last_end = off + body.len();
        }
        let ghost sent0 = conn.sent@;
        let complete = self.sink.is_complete();
        let mut flushed = false;
        if self.sink.counter >= conn.read_n(&self.server) || complete {
            self.sink.flush();
            let report = last_received_packet(self.last_end);
            conn.send_to(&self.server, &report);
            flushed = true;
        }
        if complete {
            let end = get_primitive(PrimitiveMessage::END);
            conn.send_to(&self.server, &end);
            self.state = ClientState::EndConn;
        }
        proof {
            let me = old(self).server;
            let a = (if flushed {
                seq![(me, encode_utf8(last_received_chars(self.last_end as nat)))]
            } else {
                Seq::<(PeerAddr, Seq<u8>)>::empty()
            });
            let b = (if complete {
                seq![(me, end_bytes())]
            } else {
                Seq::<(PeerAddr, Seq<u8>)>::empty()
            });
            assert(conn.sent@ =~= sent0 + a + b);
        }
    }
}

/// Every cached chunk lies inside the file: together with the buffer's
/// fixed size, the sink never touches a byte outside it.
pub proof fn lemma_cache_in_bounds(sink: FileSink, j: int)
    requires
        sink.wf(),
        0 <= j < sink.cache@.len(),
    ensures
        sink.cache@[j].0 + sink.cache@[j].1@.len() <= sink.filesize,
{
    let off = sink.cache@[j].0;
    assert(off == (off / DATA_SIZE) * DATA_SIZE) by (nonlinear_arith)
        requires
            off % DATA_SIZE == 0,
            DATA_SIZE == 1000,
    ;
    lemma_chunk_in_range(sink.filesize as nat, (off / DATA_SIZE) as nat);
}

/// When nothing is outstanding and the cache is flushed, the assembled
/// file equals the source byte for byte.
pub proof fn lemma_complete_file(sink: FileSink, source: Seq<u8>)
    requires
        sink.wf(),
        sink.matches_source(source),
        forall|k: int| 0 <= k < sink.received@.len() ==> sink.received@[k],
        sink.cache@.len() == 0,
    ensures
        sink.data@ == source,
{
    assert forall|i: int| 0 <= i < source.len() implies sink.data@[i] == source[i] by {
        let k = i / (DATA_SIZE as int);
        assert(0 <= k < num_chunks(sink.filesize as nat)) by (nonlinear_arith)
            requires
                k == i / (DATA_SIZE as int),
                0 <= i < source.len(),
                source.len() == sink.filesize,
                DATA_SIZE == 1000,
                num_chunks(sink.filesize as nat) == sink.filesize as nat / 1000 + 1,
        ;
        assert(sink.received@[k]);
        assert(!covers(sink.cache@, i));
    }
    assert(sink.data@ =~= source);
}

/// Completion means no chunk offset is outstanding: every one was received
/// at least once.
pub proof fn lemma_complete_covers(sink: FileSink)
    requires
        sink.wf(),
        forall|k: int| 0 <= k < sink.received@.len() ==> sink.received@[k],
    ensures
        forall|off: int|
            off % (DATA_SIZE as int) == 0 && 0 <= off <= sink.filesize
                ==> !sink.outstanding_offset(off),
{
    assert forall|off: int|
        off % (DATA_SIZE as int) == 0 && 0 <= off <= sink.filesize implies !sink.outstanding_offset(
        off,
    ) by {
        let k = off / (DATA_SIZE as int);
        assert(0 <= k < num_chunks(sink.filesize as nat)) by (nonlinear_arith)
            requires
                k == off / (DATA_SIZE as int),
                0 <= off <= sink.filesize,
                DATA_SIZE == 1000,
                num_chunks(sink.filesize as nat) == sink.filesize as nat / 1000 + 1,
        ;
        assert(sink.received@[k]);
    }
}

} // verus!
