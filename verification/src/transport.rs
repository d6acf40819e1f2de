//! Reliable chunked transport over unreliable datagrams.
//!
//! A message is split into chunks of at most 1020 bytes. A data packet is a
//! 4-byte big-endian chunk id followed by the chunk. A zero-length datagram is
//! the end-of-message signal; a 4-byte datagram on the return path is an
//! acknowledgement carrying the chunk id. The sender is stop-and-wait: it
//! never advances past a chunk until the matching acknowledgement arrives.
//! The socket loops that transmit and receive these datagrams live outside
//! the library; the state machines here decide every step.

use vstd::prelude::*;

use crate::encoding::{u32_be_seq, u32_from_be, u32_from_be_seq, u32_to_be};

verus! {

/// Largest payload carried by one data packet.
pub const MAX_CHUNK_DATA: usize = 1020;

// --- chunking ----------------------------------------------------------------

/// The chunks of a message, in order: all of length 1020 except the last,
/// which holds the remainder (1 to 1020 bytes). The empty message has no
/// chunks.
pub open spec fn chunks_of(s: Seq<u8>) -> Seq<Seq<u8>>
    decreases s.len(),
{
    if s.len() == 0 {
        Seq::empty()
    } else if s.len() <= MAX_CHUNK_DATA {
        seq![s]
    } else {
        seq![s.subrange(0, MAX_CHUNK_DATA as int)] + chunks_of(
            s.subrange(MAX_CHUNK_DATA as int, s.len() as int),
        )
    }
}

/// Concatenating the chunks restores the message.
pub proof fn lemma_chunks_flatten(s: Seq<u8>)
    ensures
        chunks_of(s).flatten() =~= s,
    decreases s.len(),
{
    if s.len() == 0 {
    } else if s.len() <= MAX_CHUNK_DATA {
        let cs = chunks_of(s);
        assert(cs.drop_first() =~= Seq::<Seq<u8>>::empty());
        assert(cs.flatten() == cs.first() + cs.drop_first().flatten());
        assert(cs.flatten() =~= s);
    } else {
        let rest = s.subrange(MAX_CHUNK_DATA as int, s.len() as int);
        lemma_chunks_flatten(rest);
        let cs = chunks_of(s);
        assert(cs.drop_first() =~= chunks_of(rest));
        assert(cs.flatten() == cs.first() + cs.drop_first().flatten());
        assert(cs.flatten() =~= s.subrange(0, MAX_CHUNK_DATA as int) + rest);
        assert(s.subrange(0, MAX_CHUNK_DATA as int) + rest =~= s);
    }
}

/// Every chunk is nonempty and no longer than the chunk size.
pub proof fn lemma_chunks_sizes(s: Seq<u8>)
    ensures
        forall|i: int|
            0 <= i < chunks_of(s).len() ==> 1 <= #[trigger] chunks_of(s)[i].len()
                <= MAX_CHUNK_DATA,
    decreases s.len(),
{
    if s.len() > MAX_CHUNK_DATA {
        let rest = s.subrange(MAX_CHUNK_DATA as int, s.len() as int);
        lemma_chunks_sizes(rest);
        assert forall|i: int| 0 <= i < chunks_of(s).len() implies 1 <= #[trigger] chunks_of(
            s,
        )[i].len() <= MAX_CHUNK_DATA by {
            if i > 0 {
                assert(chunks_of(s)[i] == chunks_of(rest)[i - 1]);
            }
        }
    }
}

/// The number of chunks never exceeds the length of the message.
pub proof fn lemma_chunks_count(s: Seq<u8>)
    ensures
        chunks_of(s).len() <= s.len(),
    decreases s.len(),
{
    if s.len() > MAX_CHUNK_DATA {
        lemma_chunks_count(s.subrange(MAX_CHUNK_DATA as int, s.len() as int));
    }
}

/// Splits a message into its chunks.
pub fn split_message(msg: &[u8]) -> (r: Vec<Vec<u8>>)
    ensures
        r@.len() == chunks_of(msg@).len(),
        forall|i: int| 0 <= i < r@.len() ==> r@[i]@ =~= chunks_of(msg@)[i],
{
    let mut r: Vec<Vec<u8>> = Vec::new();
    let mut i: usize = 0;
    proof {
        assert(msg@.subrange(0, msg@.len() as int) =~= msg@);
    }
    while msg.len() - i > MAX_CHUNK_DATA
        invariant
            i <= msg@.len(),
            chunks_of(msg@) =~= r@.map_values(|c: Vec<u8>| c@) + chunks_of(
                msg@.subrange(i as int, msg@.len() as int),
            ),
        decreases msg@.len() - i,
    {
        let chunk = vstd::slice::slice_to_vec(vstd::slice::slice_subrange(msg, i, i + MAX_CHUNK_DATA));
        proof {
            let rest = msg@.subrange(i as int, msg@.len() as int);
            assert(rest.subrange(0, MAX_CHUNK_DATA as int) =~= msg@.subrange(
                i as int,
                i + MAX_CHUNK_DATA,
            ));
            assert(rest.subrange(MAX_CHUNK_DATA as int, rest.len() as int) =~= msg@.subrange(
                i + MAX_CHUNK_DATA,
                msg@.len() as int,
            ));
        }
        r.push(chunk);
        proof {
            assert(r@.map_values(|c: Vec<u8>| c@) =~= r@.drop_last().map_values(|c: Vec<u8>| c@)
                + seq![r@.last()@]);
        }
        i += MAX_CHUNK_DATA;
    }
    if msg.len() - i > 0 {
        let chunk = vstd::slice::slice_to_vec(vstd::slice::slice_subrange(msg, i, msg.len()));
        r.push(chunk);
        proof {
            assert(r@.map_values(|c: Vec<u8>| c@) =~= r@.drop_last().map_values(|c: Vec<u8>| c@)
                + seq![r@.last()@]);
        }
    }
    proof {
        let mapped = r@.map_values(|c: Vec<u8>| c@);
        assert(chunks_of(msg@) =~= mapped);
        assert forall|j: int| 0 <= j < r@.len() implies r@[j]@ =~= chunks_of(msg@)[j] by {
            assert(mapped[j] == r@[j]@);
        }
    }
    r
}

// --- packets -----------------------------------------------------------------

/// A data packet: 4-byte big-endian chunk id, then the chunk bytes.
pub open spec fn data_packet_seq(chunk_id: u32, data: Seq<u8>) -> Seq<u8> {
    u32_be_seq(chunk_id) + data
}

pub fn make_data_packet(chunk_id: u32, data: &[u8]) -> (r: Vec<u8>)
    ensures
        r@ =~= data_packet_seq(chunk_id, data@),
{
    let mut r = u32_to_be(chunk_id);
    r.extend_from_slice(data);
    r
}

/// What a receiving endpoint sees in one datagram.
pub enum Datagram {
    /// A zero-length datagram: end of message.
    Eom,
    /// At least four bytes: a chunk id and its payload (possibly empty).
    Data { chunk_id: u32, payload: Vec<u8> },
    /// One to three bytes: dropped silently.
    Malformed,
}

pub fn parse_datagram(bytes: &[u8]) -> (d: Datagram)
    ensures
        bytes@.len() == 0 ==> d is Eom,
        0 < bytes@.len() < 4 ==> d is Malformed,
        bytes@.len() >= 4 ==> (d matches Datagram::Data { chunk_id, payload } && chunk_id
            == u32_from_be_seq(bytes@.subrange(0, 4)) && payload@ =~= bytes@.subrange(
            4,
            bytes@.len() as int,
        )),
{
    if bytes.len() == 0 {
        Datagram::Eom
    } else if bytes.len() < 4 {
        Datagram::Malformed
    } else {
        let header = vstd::slice::slice_subrange(bytes, 0, 4);
        let chunk_id = u32_from_be(header);
        let payload = vstd::slice::slice_to_vec(
            vstd::slice::slice_subrange(bytes, 4, bytes.len()),
        );
        Datagram::Data { chunk_id, payload }
    }
}

/// Reads an acknowledgement datagram: exactly four bytes carrying a chunk id.
pub fn parse_ack(bytes: &[u8]) -> (r: Option<u32>)
    ensures
        bytes@.len() == 4 ==> r == Some(u32_from_be_seq(bytes@)),
        bytes@.len() != 4 ==> r is None,
{
    if bytes.len() == 4 {
        proof {
            assert(bytes@.subrange(0, 4) =~= bytes@);
        }
        Some(u32_from_be(vstd::slice::slice_subrange(bytes, 0, 4)))
    } else {
        None
    }
}

// --- sender ------------------------------------------------------------------

/// Stop-and-wait sender for one message. The caller transmits
/// `current_packet` and feeds back every datagram that arrives on the return
/// path; the sender advances only on the matching acknowledgement. When
/// `done`, the caller transmits the end-of-message datagram.
pub struct ChunkSender {
    chunks: Vec<Vec<u8>>,
    next: usize,
}

impl ChunkSender {
    pub closed spec fn chunks_view(&self) -> Seq<Seq<u8>> {
        self.chunks@.map_values(|c: Vec<u8>| c@)
    }

    pub closed spec fn next_chunk(&self) -> int {
        self.next as int
    }

    pub closed spec fn wf(&self) -> bool {
        &&& self.next <= self.chunks@.len()
        &&& self.chunks@.len() <= u32::MAX
    }

    pub fn new(msg: &[u8]) -> (s: ChunkSender)
        requires
            msg@.len() <= u32::MAX,
        ensures
            s.wf(),
            s.chunks_view() =~= chunks_of(msg@),
            s.next_chunk() == 0,
    {
        let chunks = split_message(msg);
        proof {
            lemma_chunks_count(msg@);
            assert(chunks@.map_values(|c: Vec<u8>| c@) =~= chunks_of(msg@));
        }
        ChunkSender { chunks, next: 0 }
    }

    /// All chunks acknowledged: nothing left but the end-of-message signal.
    pub fn done(&self) -> (r: bool)
        ensures
            r == (self.next_chunk() == self.chunks_view().len()),
    {
        self.next == self.chunks.len()
    }

    /// The packet to transmit (and retransmit until acknowledged).
    pub fn current_packet(&self) -> (r: Option<Vec<u8>>)
        requires
            self.wf(),
        ensures
            self.next_chunk() < self.chunks_view().len() ==> (r matches Some(p) && p@
                =~= data_packet_seq(
                self.next_chunk() as u32,
                self.chunks_view()[self.next_chunk()],
            )),
            self.next_chunk() == self.chunks_view().len() ==> r is None,
    {
        if self.next < self.chunks.len() {
            let chunk = &self.chunks[self.next];
            Some(make_data_packet(self.next as u32, chunk.as_slice()))
        } else {
            None
        }
    }

    /// Feeds one datagram from the return path. The sender advances exactly
    /// when the datagram is a well-formed acknowledgement of the current
    /// chunk; on anything else the caller retransmits.
    pub fn on_ack_datagram(&mut self, bytes: &[u8]) -> (advanced: bool)
        requires
            old(self).wf(),
            old(self).next_chunk() < old(self).chunks_view().len(),
        ensures
            final(self).wf(),
            final(self).chunks_view() == old(self).chunks_view(),
            advanced == (bytes@.len() == 4 && u32_from_be_seq(bytes@) == old(self).next_chunk()),
            advanced ==> final(self).next_chunk() == old(self).next_chunk() + 1,
            !advanced ==> final(self).next_chunk() == old(self).next_chunk(),
    {
        match parse_ack(bytes) {
            Some(id) => {
                if id as usize == self.next {
                    self.next = self.next + 1;
                    true
                } else {
                    false
                }
            },
            None => false,
        }
    }
}

// --- receiver ----------------------------------------------------------------

/// Pads the stored chunks with empty slots up to `cid + 1` entries, then
/// writes `data` at position `cid`: exactly what the receiver does with a
/// data packet.
pub open spec fn store_chunk(cs: Seq<Seq<u8>>, cid: int, data: Seq<u8>) -> Seq<Seq<u8>>
    recommends
        0 <= cid,
{
    let padded = if cs.len() > cid {
        cs
    } else {
        cs + Seq::new((cid + 1 - cs.len()) as nat, |j: int| Seq::<u8>::empty())
    };
    padded.update(cid, data)
}

/// What the receiver does with one datagram.
pub enum RecvAction {
    /// End of message: stop and reassemble.
    Finish,
    /// A chunk was stored; acknowledge it with this id.
    Ack(u32),
    /// Malformed: drop silently.
    Drop,
}

/// Reassembles one message from data packets. Chunks may arrive duplicated
/// or out of order; each well-formed chunk is acknowledged, duplicates
/// included. An empty slot marks a chunk never received (real chunks are
/// never empty).
pub struct Reassembly {
    chunks: Vec<Vec<u8>>,
}

impl Reassembly {
    pub closed spec fn chunks_view(&self) -> Seq<Seq<u8>> {
        self.chunks@.map_values(|c: Vec<u8>| c@)
    }

    pub fn new() -> (r: Reassembly)
        ensures
            r.chunks_view() =~= Seq::<Seq<u8>>::empty(),
    {
        Reassembly { chunks: Vec::new() }
    }

    /// Feeds one datagram. A zero-length datagram finishes the message; a
    /// short datagram is dropped; anything else stores the chunk (duplicates
    /// overwrite in place) and asks the caller to acknowledge it.
    pub fn on_datagram(&mut self, bytes: &[u8]) -> (r: RecvAction)
        requires
            bytes@.len() >= 4 ==> u32_from_be_seq(bytes@.subrange(0, 4)) < usize::MAX,
        ensures
            bytes@.len() == 0 ==> r is Finish && final(self).chunks_view() == old(
                self,
            ).chunks_view(),
            0 < bytes@.len() < 4 ==> r is Drop && final(self).chunks_view() == old(
                self,
            ).chunks_view(),
            bytes@.len() >= 4 ==> {
                let cid = u32_from_be_seq(bytes@.subrange(0, 4));
                &&& r == RecvAction::Ack(cid)
                &&& final(self).chunks_view() =~= store_chunk(
                    old(self).chunks_view(),
                    cid as int,
                    bytes@.subrange(4, bytes@.len() as int),
                )
            },
            final(self).chunks_view() =~= receiver_step(old(self).chunks_view(), bytes@),
    {
        match parse_datagram(bytes) {
            Datagram::Eom => RecvAction::Finish,
            Datagram::Malformed => RecvAction::Drop,
            Datagram::Data { chunk_id, payload } => {
                let cid = chunk_id as usize;
                while self.chunks.len() <= cid
                    invariant
                        old(self).chunks_view().len() <= self.chunks@.len(),
                        self.chunks@.len() <= cid + 1 || self.chunks@.len() == old(
                            self,
                        ).chunks_view().len(),
                        cid < usize::MAX,
                        forall|j: int|
                            0 <= j < old(self).chunks_view().len() ==> self.chunks@[j]
                                == old(self).chunks@[j],
                        forall|j: int|
                            old(self).chunks_view().len() <= j < self.chunks@.len()
                                ==> self.chunks@[j]@ =~= Seq::<u8>::empty(),
                    decreases cid + 1 - self.chunks@.len(),
                {
                    self.chunks.push(Vec::new());
                }
                self.chunks[cid] = payload;
                proof {
                    assert(self.chunks_view() =~= store_chunk(
                        old(self).chunks_view(),
                        cid as int,
                        bytes@.subrange(4, bytes@.len() as int),
                    ));
                }
                RecvAction::Ack(chunk_id)
            },
        }
    }

    /// The reassembled message, in ascending chunk order. `None` when some
    /// chunk is missing.
    pub fn message(&self) -> (r: Option<Vec<u8>>)
        ensures
            (exists|i: int| 0 <= i < self.chunks_view().len() && self.chunks_view()[i].len() == 0)
                ==> r is None,
            (forall|i: int|
                0 <= i < self.chunks_view().len() ==> #[trigger] self.chunks_view()[i].len() > 0)
                ==> (r matches Some(m) && m@ =~= self.chunks_view().flatten()),
    {
        let mut out: Vec<u8> = Vec::new();
        let mut i: usize = 0;
        while i < self.chunks.len()
            invariant
                i <= self.chunks@.len(),
                forall|j: int| 0 <= j < i ==> #[trigger] self.chunks_view()[j].len() > 0,
                out@ =~= self.chunks_view().subrange(0, i as int).flatten(),
            decreases self.chunks@.len() - i,
        {
            proof {
                assert(self.chunks_view()[i as int] == self.chunks@[i as int]@);
            }
            if self.chunks[i].len() == 0 {
                return None;
            }
            out.extend_from_slice(self.chunks[i].as_slice());
            proof {
                let pre = self.chunks_view().subrange(0, i as int);
                let post = self.chunks_view().subrange(0, i + 1);
                assert(post.drop_last() =~= pre);
                assert(post.last() == self.chunks_view()[i as int]);
                post.lemma_flatten_and_flatten_alt_are_equivalent();
                pre.lemma_flatten_and_flatten_alt_are_equivalent();
                assert(post.flatten_alt() == post.drop_last().flatten_alt() + post.last());
            }
            i += 1;
        }
        proof {
            assert(self.chunks_view().subrange(0, i as int) =~= self.chunks_view());
        }
        Some(out)
    }
}

// --- transport laws ------------------------------------------------------------

/// What one datagram does to the receiver's stored chunks: short datagrams
/// change nothing, a data packet stores its chunk. (The zero-length
/// end-of-message datagram only stops the loop.)
pub open spec fn receiver_step(cs: Seq<Seq<u8>>, d: Seq<u8>) -> Seq<Seq<u8>> {
    if d.len() < 4 {
        cs
    } else {
        store_chunk(cs, u32_from_be_seq(d.subrange(0, 4)) as int, d.subrange(4, d.len() as int))
    }
}

/// The receiver's stored chunks after consuming the datagrams `ds` in order.
pub open spec fn run_receiver(cs: Seq<Seq<u8>>, ds: Seq<Seq<u8>>) -> Seq<Seq<u8>>
    decreases ds.len(),
{
    if ds.len() == 0 {
        cs
    } else {
        run_receiver(receiver_step(cs, ds.first()), ds.drop_first())
    }
}

/// `d` is a faithful data packet of `msg`: a well-formed packet carrying some
/// chunk of `msg` under that chunk's id.
pub open spec fn is_packet_of(d: Seq<u8>, msg: Seq<u8>) -> bool {
    exists|i: int|
        0 <= i < chunks_of(msg).len() && d == data_packet_seq(i as u32, #[trigger] chunks_of(
            msg,
        )[i])
}

/// The delivery `ds` carries chunk `i` of `msg` at least once.
pub open spec fn delivers(ds: Seq<Seq<u8>>, msg: Seq<u8>, i: int) -> bool {
    exists|k: int| 0 <= k < ds.len() && #[trigger] ds[k] == data_packet_seq(i as u32, chunks_of(msg)[i])
}

/// Every stored chunk is either still missing (empty) or the right chunk of
/// `msg`, and no slot lies beyond the last chunk.
pub open spec fn partial_of(cs: Seq<Seq<u8>>, msg: Seq<u8>) -> bool {
    &&& cs.len() <= chunks_of(msg).len()
    &&& forall|j: int| 0 <= j < cs.len() ==> #[trigger] cs[j].len() == 0 || cs[j] == chunks_of(msg)[j]
}

/// Slot `j` holds a chunk.
pub open spec fn filled(cs: Seq<Seq<u8>>, j: int) -> bool {
    0 <= j < cs.len() && cs[j].len() > 0
}

/// Consuming faithful packets keeps the store faithful, never un-fills a
/// slot, and fills the slot of every chunk the delivery carries.
proof fn lemma_run_receiver_faithful(cs: Seq<Seq<u8>>, ds: Seq<Seq<u8>>, msg: Seq<u8>)
    requires
        chunks_of(msg).len() <= 0x1_0000_0000,
        partial_of(cs, msg),
        forall|k: int| 0 <= k < ds.len() ==> is_packet_of(#[trigger] ds[k], msg),
    ensures
        partial_of(run_receiver(cs, ds), msg),
        forall|j: int| #[trigger] filled(cs, j) ==> filled(run_receiver(cs, ds), j),
        forall|i: int|
            0 <= i < chunks_of(msg).len() && #[trigger] delivers(ds, msg, i) ==> filled(
                run_receiver(cs, ds),
                i,
            ),
    decreases ds.len(),
{
    if ds.len() == 0 {
    } else {
        let d = ds.first();
        let rest = ds.drop_first();
        assert(is_packet_of(d, msg));
        let i0 = choose|i: int|
            0 <= i < chunks_of(msg).len() && d == data_packet_seq(
                i as u32,
                #[trigger] chunks_of(msg)[i],
            );
        let chunk = chunks_of(msg)[i0];
        lemma_chunks_sizes(msg);
        assert(d.subrange(0, 4) =~= u32_be_seq(i0 as u32));
        assert(d.subrange(4, d.len() as int) =~= chunk);
        crate::encoding::lemma_u32_be_round_trip(i0 as u32);
        let cs2 = receiver_step(cs, d);
        assert(cs2 == store_chunk(cs, i0, chunk));
        assert(partial_of(cs2, msg)) by {
            assert forall|j: int|
                0 <= j < cs2.len() implies #[trigger] cs2[j].len() == 0 || cs2[j] == chunks_of(
                msg,
            )[j] by {
                if j != i0 && j < cs.len() {
                    assert(cs2[j] == cs[j]);
                    assert(cs[j].len() == 0 || cs[j] == chunks_of(msg)[j]);
                }
            }
        }
        assert(forall|j: int| #[trigger] filled(cs, j) ==> filled(cs2, j));
        assert(filled(cs2, i0));
        assert(forall|k: int| 0 <= k < rest.len() ==> is_packet_of(#[trigger] rest[k], msg)) by {
            assert(forall|k: int| 0 <= k < rest.len() ==> rest[k] == ds[k + 1]);
        }
        lemma_run_receiver_faithful(cs2, rest, msg);
        assert(run_receiver(cs, ds) == run_receiver(cs2, rest));
        assert forall|i: int|
            0 <= i < chunks_of(msg).len() && #[trigger] delivers(ds, msg, i) implies filled(
            run_receiver(cs, ds),
            i,
        ) by {
            let k = choose|k: int|
                0 <= k < ds.len() && #[trigger] ds[k] == data_packet_seq(
                    i as u32,
                    chunks_of(msg)[i],
                );
            if k == 0 {
                assert(d.subrange(0, 4) =~= u32_be_seq(i as u32));
                crate::encoding::lemma_u32_be_round_trip(i as u32);
                assert(u32_from_be_seq(u32_be_seq(i as u32)) == u32_from_be_seq(
                    u32_be_seq(i0 as u32),
                ));
                assert(i == i0);
                assert(filled(cs2, i));
            } else {
                assert(rest[k - 1] == ds[k]);
                assert(delivers(rest, msg, i));
            }
        }
    }
}

/// Transport completeness: a receiver that consumes a faithful and complete
/// delivery of `msg` — every datagram a data packet of `msg`, every chunk
/// present at least once, duplicates and reordering allowed — holds exactly
/// the chunks of `msg`, whose concatenation is `msg`. A delivery missing a
/// chunk leaves an empty slot instead, and `Reassembly::message` then
/// returns nothing: the receiver never yields a prefix or corrupted bytes.
pub proof fn lemma_transport_completeness(ds: Seq<Seq<u8>>, msg: Seq<u8>)
    requires
        chunks_of(msg).len() <= 0x1_0000_0000,
        forall|k: int| 0 <= k < ds.len() ==> is_packet_of(#[trigger] ds[k], msg),
        forall|i: int| 0 <= i < chunks_of(msg).len() ==> #[trigger] delivers(ds, msg, i),
    ensures
        run_receiver(Seq::empty(), ds) =~= chunks_of(msg),
        run_receiver(Seq::empty(), ds).flatten() =~= msg,
{
    let r = run_receiver(Seq::empty(), ds);
    lemma_run_receiver_faithful(Seq::empty(), ds, msg);
    let n = chunks_of(msg).len() as int;
    if n > 0 {
        assert(delivers(ds, msg, n - 1));
        assert(filled(r, n - 1));
    }
    assert forall|j: int| 0 <= j < n implies r[j] == chunks_of(msg)[j] by {
        assert(delivers(ds, msg, j));
        assert(filled(r, j));
    }
    assert(r =~= chunks_of(msg));
    lemma_chunks_flatten(msg);
}

/// One receiver step is idempotent: a duplicated datagram stores what is
/// already stored.
proof fn lemma_receiver_step_idempotent(cs: Seq<Seq<u8>>, d: Seq<u8>)
    ensures
        receiver_step(receiver_step(cs, d), d) =~= receiver_step(cs, d),
{
}

/// Consuming a single datagram is one receiver step.
proof fn lemma_run_receiver_one(cs: Seq<Seq<u8>>, d: Seq<u8>)
    ensures
        run_receiver(cs, seq![d]) =~= receiver_step(cs, d),
{
    assert(seq![d].first() == d);
    assert(seq![d].drop_first() =~= Seq::<Seq<u8>>::empty());
    assert(run_receiver(cs, seq![d]) == run_receiver(receiver_step(cs, d), seq![d].drop_first()));
}

/// Consuming `a ++ b` is consuming `a`, then `b`.
proof fn lemma_run_receiver_append(cs: Seq<Seq<u8>>, a: Seq<Seq<u8>>, b: Seq<Seq<u8>>)
    ensures
        run_receiver(cs, a + b) =~= run_receiver(run_receiver(cs, a), b),
    decreases a.len(),
{
    if a.len() == 0 {
        assert(a + b =~= b);
    } else {
        let cs2 = receiver_step(cs, a.first());
        assert((a + b).first() == a.first());
        assert((a + b).drop_first() =~= a.drop_first() + b);
        lemma_run_receiver_append(cs2, a.drop_first(), b);
        assert(run_receiver(cs, a + b) == run_receiver(cs2, (a + b).drop_first()));
    }
}

/// ACK idempotence: duplicating any datagram on the wire leaves the
/// receiver's stored chunks — and so the reassembled bytes — unchanged.
pub proof fn lemma_ack_idempotence(cs: Seq<Seq<u8>>, before: Seq<Seq<u8>>, d: Seq<u8>, after: Seq<
    Seq<u8>,
>)
    ensures
        run_receiver(cs, before + seq![d, d] + after) =~= run_receiver(cs, before + seq![d] + after),
{
    let once = run_receiver(cs, before);
    lemma_run_receiver_append(cs, before, seq![d, d] + after);
    lemma_run_receiver_append(cs, before, seq![d] + after);
    lemma_run_receiver_append(once, seq![d, d], after);
    lemma_run_receiver_append(once, seq![d], after);
    assert(before + seq![d, d] + after =~= before + (seq![d, d] + after));
    assert(before + seq![d] + after =~= before + (seq![d] + after));
    lemma_receiver_step_idempotent(once, d);
    assert(seq![d, d] =~= seq![d] + seq![d]);
    lemma_run_receiver_append(once, seq![d], seq![d]);
    lemma_run_receiver_one(once, d);
    lemma_run_receiver_one(receiver_step(once, d), d);
    assert(run_receiver(once, seq![d, d]) =~= run_receiver(once, seq![d]));
}

} // verus!
