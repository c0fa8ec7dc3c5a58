//! Framing of a file into numbered datagrams, the stop-and-wait sender that
//! pushes them one by one, and the receiver that collects them and puts the
//! file back together.
//!
//! Every datagram starts with an eight-byte big-endian sequence number.  A
//! data datagram carries chunk number `i` of the file after its header; the
//! sequence number `END_OF_TRANSMISSION` closes a transfer, and a receiver
//! that waits for a file name takes it from the datagram numbered
//! `NAME_SEQUENCE`.  The receiver answers each datagram with its sequence
//! number; the sender resends a chunk until that answer comes back.
use vstd::prelude::*;
use std::collections::HashMap;
use vstd::std_specs::hash::obeys_key_model;
use vstd::std_specs::hash::builds_valid_hashers;
use std::collections::hash_map::RandomState;

verus! {

broadcast use vstd::std_specs::hash::group_hash_axioms;

/// Length of the sequence number that leads every datagram.
pub const HEADER_SIZE: usize = 8;

/// Largest number of file bytes that one data datagram carries.
pub const CHUNK_SIZE: usize = 65008;

/// Sequence number of the datagram that closes a transfer.
pub const END_OF_TRANSMISSION: u64 = 0xffff_ffff_ffff_ffff;

/// Sequence number of the datagram that carries the file's name.
pub const NAME_SEQUENCE: u64 = 0xffff_ffff_ffff_fffe;

/// Size of the buffer into which a receiver that waits for a name reads
/// each datagram.
pub const MAX_PACKET_SIZE: usize = 1000000;

/// The eight bytes of `n`, most significant first.
pub open spec fn header_bytes(n: u64) -> Seq<u8> {
    seq![
        ((n >> 56u64) & 0xffu64) as u8,
        ((n >> 48u64) & 0xffu64) as u8,
        ((n >> 40u64) & 0xffu64) as u8,
        ((n >> 32u64) & 0xffu64) as u8,
        ((n >> 24u64) & 0xffu64) as u8,
        ((n >> 16u64) & 0xffu64) as u8,
        ((n >> 8u64) & 0xffu64) as u8,
        (n & 0xffu64) as u8,
    ]
}

/// The number whose eight bytes, most significant first, are `b[0..8]`.
pub open spec fn header_value(b: Seq<u8>) -> u64
    recommends
        b.len() >= 8,
{
    ((b[0] as u64) << 56u64) | ((b[1] as u64) << 48u64) | ((b[2] as u64) << 40u64) | ((
    b[3] as u64) << 32u64) | ((b[4] as u64) << 24u64) | ((b[5] as u64) << 16u64) | ((
    b[6] as u64) << 8u64) | (b[7] as u64)
}

/// The first eight bytes of a receive buffer that held `prev` before the
/// datagram `d` was read into it: the datagram's bytes, and where it is
/// shorter than eight bytes, what was there before.
pub open spec fn overlay(prev: Seq<u8>, d: Seq<u8>) -> Seq<u8> {
    Seq::new(8, |k: int| if k < d.len() { d[k] } else { prev[k] })
}

/// Eight zero bytes: a fresh receive buffer.
pub open spec fn zero_header() -> Seq<u8> {
    Seq::new(8, |k: int| 0u8)
}

/// The number of chunks of a file of `len` bytes.
pub open spec fn chunk_count(len: nat) -> nat {
    ((len + CHUNK_SIZE - 1) / (CHUNK_SIZE as int)) as nat
}

/// Chunk `i` of `data`: the bytes from `i * CHUNK_SIZE` on, at most
/// `CHUNK_SIZE` of them.
pub open spec fn chunk_of(data: Seq<u8>, i: int) -> Seq<u8> {
    let lo = i * CHUNK_SIZE;
    let hi = if (i + 1) * CHUNK_SIZE < data.len() {
        (i + 1) * CHUNK_SIZE
    } else {
        data.len() as int
    };
    data.subrange(lo, hi)
}

/// The datagram with sequence number `seq` that carries `payload`.
pub open spec fn packet(seq: u64, payload: Seq<u8>) -> Seq<u8> {
    header_bytes(seq) + payload
}

/// The bytes of a datagram after its header.
pub open spec fn payload_of(d: Seq<u8>) -> Seq<u8> {
    d.subrange(HEADER_SIZE as int, d.len() as int)
}

/// The file that the chunks `m` give when the chunks numbered below `n`
/// are put one after the other; a missing number contributes nothing.
pub open spec fn assembled(m: Map<u64, Seq<u8>>, n: nat) -> Seq<u8>
    decreases n,
{
    if n == 0 {
        Seq::empty()
    } else {
        let k = (n - 1) as u64;
        assembled(m, (n - 1) as nat) + if m.contains_key(k) {
            m[k]
        } else {
            Seq::empty()
        }
    }
}

/// The chunks of `data`, each under its number.
pub open spec fn chunk_map(data: Seq<u8>) -> Map<u64, Seq<u8>> {
    Map::new(
        |k: u64| (k as int) < chunk_count(data.len()),
        |k: u64| chunk_of(data, k as int),
    )
}

/// Reading a datagram into the receive buffer: a datagram of at least
/// eight bytes brings its own first eight bytes, a shorter one brings its
/// bytes and leaves the rest as they were.
pub proof fn lemma_overlay(prev: Seq<u8>, d: Seq<u8>)
    requires
        prev.len() == 8,
    ensures
        overlay(prev, d).len() == 8,
        d.len() >= 8 ==> overlay(prev, d) == d.take(8),
        d.len() < 8 ==> overlay(prev, d) == d + prev.skip(d.len() as int),
{
    if d.len() >= 8 {
        assert(overlay(prev, d) =~= d.take(8));
    } else {
        assert(overlay(prev, d) =~= d + prev.skip(d.len() as int));
    }
}

/// Decoding a header gives back the number that it was made from.
pub proof fn lemma_header_roundtrip(n: u64)
    ensures
        header_bytes(n).len() == 8,
        header_value(header_bytes(n)) == n,
{
    let b = header_bytes(n);
    assert(header_value(b) == ((((n >> 56u64) & 0xffu64) as u8 as u64) << 56u64) | ((((n
        >> 48u64) & 0xffu64) as u8 as u64) << 48u64) | ((((n >> 40u64) & 0xffu64) as u8 as u64)
        << 40u64) | ((((n >> 32u64) & 0xffu64) as u8 as u64) << 32u64) | ((((n >> 24u64)
        & 0xffu64) as u8 as u64) << 24u64) | ((((n >> 16u64) & 0xffu64) as u8 as u64) << 16u64)
        | ((((n >> 8u64) & 0xffu64) as u8 as u64) << 8u64) | ((n & 0xffu64) as u8 as u64));
    assert(((((n >> 56u64) & 0xffu64) as u8 as u64) << 56u64) | ((((n >> 48u64) & 0xffu64) as u8
        as u64) << 48u64) | ((((n >> 40u64) & 0xffu64) as u8 as u64) << 40u64) | ((((n >> 32u64)
        & 0xffu64) as u8 as u64) << 32u64) | ((((n >> 24u64) & 0xffu64) as u8 as u64) << 24u64)
        | ((((n >> 16u64) & 0xffu64) as u8 as u64) << 16u64) | ((((n >> 8u64) & 0xffu64) as u8
        as u64) << 8u64) | ((n & 0xffu64) as u8 as u64) == n) by (bit_vector);
}

/// Every sequence of eight bytes is the header of the number it decodes to.
pub proof fn lemma_header_bytes_of_value(b: Seq<u8>)
    requires
        b.len() == 8,
    ensures
        header_bytes(header_value(b)) == b,
{
    let (b0, b1, b2, b3, b4, b5, b6, b7) = (b[0], b[1], b[2], b[3], b[4], b[5], b[6], b[7]);
    let v = header_value(b);
    assert(v == ((b0 as u64) << 56u64) | ((b1 as u64) << 48u64) | ((b2 as u64) << 40u64) | ((
    b3 as u64) << 32u64) | ((b4 as u64) << 24u64) | ((b5 as u64) << 16u64) | ((b6 as u64)
        << 8u64) | (b7 as u64));
    assert(((v >> 56u64) & 0xffu64) as u8 == b0 && ((v >> 48u64) & 0xffu64) as u8 == b1 && ((v
        >> 40u64) & 0xffu64) as u8 == b2 && ((v >> 32u64) & 0xffu64) as u8 == b3 && ((v >> 24u64)
        & 0xffu64) as u8 == b4 && ((v >> 16u64) & 0xffu64) as u8 == b5 && ((v >> 8u64) & 0xffu64)
        as u8 == b6 && (v & 0xffu64) as u8 == b7) by (bit_vector)
        requires
            v == ((b0 as u64) << 56u64) | ((b1 as u64) << 48u64) | ((b2 as u64) << 40u64) | ((
            b3 as u64) << 32u64) | ((b4 as u64) << 24u64) | ((b5 as u64) << 16u64) | ((
            b6 as u64) << 8u64) | (b7 as u64),
    ;
    assert(header_bytes(v) =~= b);
}

/// The eight-byte big-endian header that carries `n`.
pub fn encode_header(n: u64) -> (r: Vec<u8>)
    ensures
        r@ == header_bytes(n),
{
    let mut r: Vec<u8> = Vec::new();
    r.push(((n >> 56u64) & 0xffu64) as u8);
    r.push(((n >> 48u64) & 0xffu64) as u8);
    r.push(((n >> 40u64) & 0xffu64) as u8);
    r.push(((n >> 32u64) & 0xffu64) as u8);
    r.push(((n >> 24u64) & 0xffu64) as u8);
    r.push(((n >> 16u64) & 0xffu64) as u8);
    r.push(((n >> 8u64) & 0xffu64) as u8);
    r.push((n & 0xffu64) as u8);
    assert(r@ =~= header_bytes(n));
    r
}

/// The number that the first eight bytes of `b` carry, most significant
/// byte first.
pub fn decode_header(b: &[u8]) -> (r: u64)
    requires
        b@.len() >= 8,
    ensures
        r == header_value(b@),
{
    ((b[0] as u64) << 56u64) | ((b[1] as u64) << 48u64) | ((b[2] as u64) << 40u64) | ((
    b[3] as u64) << 32u64) | ((b[4] as u64) << 24u64) | ((b[5] as u64) << 16u64) | ((
    b[6] as u64) << 8u64) | (b[7] as u64)
}

/// Lays the first eight bytes of `d` over `prev`, as reading `d` into a
/// receive buffer that held `prev` does.
fn overlay_header(prev: &Vec<u8>, d: &[u8]) -> (r: Vec<u8>)
    requires
        prev@.len() == 8,
    ensures
        r@ == overlay(prev@, d@),
{
    let mut r: Vec<u8> = Vec::new();
    let mut k: usize = 0;
    while k < 8
        invariant
            k <= 8,
            prev@.len() == 8,
            r@.len() == k,
            forall|j: int| 0 <= j < k ==> r@[j] == overlay(prev@, d@)[j],
        decreases 8 - k,
    {
        if k < d.len() {
            r.push(d[k]);
        } else {
            r.push(prev[k]);
        }
        k = k + 1;
    }
    assert(r@ =~= overlay(prev@, d@));
    r
}

/// The sequence number that an acknowledgement `d` carries, as read into a
/// fresh eight-byte buffer: a short acknowledgement leaves zero bytes at
/// the end, a long one is cut to its first eight bytes.
pub fn acknowledged_sequence(d: &[u8]) -> (r: u64)
    ensures
        r == header_value(overlay(zero_header(), d@)),
{
    let zeros: Vec<u8> = vec![0u8, 0u8, 0u8, 0u8, 0u8, 0u8, 0u8, 0u8];
    assert(zeros@ =~= zero_header());
    let h = overlay_header(&zeros, d);
    decode_header(h.as_slice())
}

/// The datagram with sequence number `seq` that carries `payload`.
pub fn make_packet(seq: u64, payload: &[u8]) -> (r: Vec<u8>)
    ensures
        r@ == packet(seq, payload@),
{
    let mut r = encode_header(seq);
    r.extend_from_slice(payload);
    assert(r@ =~= packet(seq, payload@));
    r
}

/// The datagram that closes a transfer.
pub fn end_packet() -> (r: Vec<u8>)
    ensures
        r@ == header_bytes(END_OF_TRANSMISSION),
{
    encode_header(END_OF_TRANSMISSION)
}

proof fn lemma_chunk_count(len: nat, i: nat)
    requires
        (i == 0 && len == 0) || ((i - 1) * CHUNK_SIZE < len <= i * CHUNK_SIZE),
    ensures
        chunk_count(len) == i,
{
    assert(chunk_count(len) == i) by (nonlinear_arith)
        requires
            (i == 0 && len == 0) || ((i - 1) * 65008 < len <= i * 65008),
            chunk_count(len) == (len + 65007) / 65008,
    ;
}

/// Cuts `data` into chunks of `CHUNK_SIZE` bytes, the last one possibly
/// shorter, and makes each into the datagram numbered by its position.
pub fn chunk_packets(data: &[u8]) -> (r: Vec<Vec<u8>>)
    ensures
        r@.len() == chunk_count(data@.len()),
        forall|i: int| 0 <= i < r@.len() ==> #[trigger] r@[i]@ == packet(i as u64, chunk_of(data@, i)),
{
    let mut r: Vec<Vec<u8>> = Vec::new();
    let mut start: usize = 0;
    let mut i: u64 = 0;
    while start < data.len()
        invariant
            start <= data@.len(),
            start == i * CHUNK_SIZE,
            r@.len() == i,
            forall|k: int| 0 <= k < r@.len() ==> #[trigger] r@[k]@ == packet(k as u64, chunk_of(data@, k)),
        decreases data@.len() - start,
    {
        let end: usize = if data.len() - start > CHUNK_SIZE {
            start + CHUNK_SIZE
        } else {
            data.len()
        };
        let chunk = vstd::slice::slice_subrange(data, start, end);
        let p = make_packet(i, chunk);
        assert(chunk@ == chunk_of(data@, i as int));
        r.push(p);
        if end < data.len() {
            start = end;
        } else {
            proof {
                lemma_chunk_count(data@.len(), (i + 1) as nat);
            }
            i = i + 1;
            assert(r@.len() == chunk_count(data@.len()));
            return r;
        }
        i = i + 1;
    }
    proof {
        lemma_chunk_count(data@.len(), i as nat);
    }
    r
}

/// The receiving end of a transfer.
///
/// It keeps the first eight bytes of its receive buffer, since a datagram
/// shorter than a header leaves the bytes of earlier datagrams behind it,
/// the chunks received so far under their sequence numbers (a chunk that
/// comes again replaces the earlier copy), the file's name once it came,
/// and whether the transfer was closed.
pub struct Receiver {
    header: Vec<u8>,
    chunks: HashMap<u64, Vec<u8>>,
    name: Option<Vec<u8>>,
    waits_for_name: bool,
    finished: bool,
}

impl Receiver {
    #[verifier::type_invariant]
    spec fn well_formed(self) -> bool {
        self.header@.len() == 8
    }

    /// The first eight bytes of the receive buffer.
    pub closed spec fn buffered_header(&self) -> Seq<u8> {
        self.header@
    }

    /// The chunks received so far, under their sequence numbers.
    pub closed spec fn chunks(&self) -> Map<u64, Seq<u8>> {
        self.chunks@.map_values(|v: Vec<u8>| v@)
    }

    /// The file's name, once the datagram that carries it came.
    pub closed spec fn name(&self) -> Option<Seq<u8>> {
        match self.name {
            Some(n) => Some(n@),
            None => None,
        }
    }

    /// Whether the receiver takes the file's name from the first datagram
    /// numbered `NAME_SEQUENCE`.
    pub closed spec fn waits_for_name(&self) -> bool {
        self.waits_for_name
    }

    /// Whether the datagram that closes the transfer came.
    pub closed spec fn finished(&self) -> bool {
        self.finished
    }

    /// A receiver before the first datagram, with a zeroed buffer.
    pub fn new(waits_for_name: bool) -> (r: Self)
        ensures
            r.buffered_header() == zero_header(),
            r.chunks() == Map::<u64, Seq<u8>>::empty(),
            r.name() is None,
            r.waits_for_name() == waits_for_name,
            !r.finished(),
    {
        let header: Vec<u8> = vec![0u8, 0u8, 0u8, 0u8, 0u8, 0u8, 0u8, 0u8];
        assert(header@ =~= zero_header());
        let chunks: HashMap<u64, Vec<u8>> = HashMap::new();
        let r = Receiver { header, chunks, name: None, waits_for_name, finished: false };
        assert(r.chunks() =~= Map::<u64, Seq<u8>>::empty());
        r
    }

    /// Reads the datagram `d` into the receive buffer and gives back the
    /// sequence number that the buffer's first eight bytes now carry.
    pub fn read_sequence(&mut self, d: &[u8]) -> (seq: u64)
        ensures
            final(self).buffered_header() == overlay(old(self).buffered_header(), d@),
            seq == header_value(final(self).buffered_header()),
            final(self).chunks() == old(self).chunks(),
            final(self).name() == old(self).name(),
            final(self).waits_for_name() == old(self).waits_for_name(),
            final(self).finished() == old(self).finished(),
    {
        proof {
            use_type_invariant(&*self);
        }
        let header = overlay_header(&self.header, d);
        let seq = decode_header(header.as_slice());
        self.header = header;
        seq
    }

    /// Takes in the datagram `d` whose sequence number is `seq`: the closing
    /// datagram ends the transfer, the first name datagram that a receiver
    /// waiting for a name sees gives the name, and any other datagram is a
    /// chunk, stored under its number.
    pub fn accept(&mut self, seq: u64, d: &[u8])
        requires
            seq == END_OF_TRANSMISSION || d@.len() >= HEADER_SIZE,
        ensures
            final(self).buffered_header() == old(self).buffered_header(),
            final(self).waits_for_name() == old(self).waits_for_name(),
            seq == END_OF_TRANSMISSION ==> {
                &&& final(self).finished()
                &&& final(self).chunks() == old(self).chunks()
                &&& final(self).name() == old(self).name()
            },
            seq != END_OF_TRANSMISSION && old(self).waits_for_name() && old(self).name() is None
                && seq == NAME_SEQUENCE ==> {
                &&& final(self).finished() == old(self).finished()
                &&& final(self).chunks() == old(self).chunks()
                &&& final(self).name() == Some(payload_of(d@))
            },
            seq != END_OF_TRANSMISSION && !(old(self).waits_for_name() && old(self).name() is None
                && seq == NAME_SEQUENCE) ==> {
                &&& final(self).finished() == old(self).finished()
                &&& final(self).chunks() == old(self).chunks().insert(seq, payload_of(d@))
                &&& final(self).name() == old(self).name()
            },
    {
        proof {
            use_type_invariant(&*self);
        }
        if seq == END_OF_TRANSMISSION {
            self.finished = true;
        } else {
            let payload = vstd::slice::slice_subrange(d, HEADER_SIZE, d.len());
            let bytes = vstd::slice::slice_to_vec(payload);
            if self.waits_for_name && self.name.is_none() && seq == NAME_SEQUENCE {
                self.name = Some(bytes);
            } else {
                assert(obeys_key_model::<u64>());
                assert(builds_valid_hashers::<RandomState>());
                let mut chunks: HashMap<u64, Vec<u8>> = HashMap::new();
                std::mem::swap(&mut chunks, &mut self.chunks);
                chunks.insert(seq, bytes);
                self.chunks = chunks;
                assert(self.chunks() =~= old(self).chunks().insert(seq, payload_of(d@)));
            }
        }
    }

    /// Whether the datagram that closes the transfer came.
    pub fn is_finished(&self) -> (r: bool)
        ensures
            r == self.finished(),
    {
        self.finished
    }

    /// The file's name as it came, or nothing if it did not come.
    pub fn image_name(&self) -> (r: Vec<u8>)
        ensures
            r@ == match self.name() {
                Some(n) => n,
                None => Seq::empty(),
            },
    {
        match &self.name {
            Some(n) => n.clone(),
            None => Vec::new(),
        }
    }

    /// The file that the received chunks make: the chunks numbered below the
    /// number of chunks held, one after the other, a missing number
    /// contributing nothing.
    pub fn into_file(self) -> (r: Vec<u8>)
        ensures
            r@ == assembled(self.chunks(), self.chunks().len()),
    {
        proof {
            use_type_invariant(&self);
        }
        let ghost m0 = self.chunks();
        let Receiver { header, chunks, name, waits_for_name, finished } = self;
        let mut chunks = chunks;
        assert(obeys_key_model::<u64>());
        assert(builds_valid_hashers::<RandomState>());
        let n = chunks.len();
        assert(m0.dom() =~= chunks@.dom());
        assert(n == m0.len());
        let mut out: Vec<u8> = Vec::new();
        let mut i: usize = 0;
        while i < n
            invariant
                i <= n,
                n == m0.len(),
                obeys_key_model::<u64>(),
                builds_valid_hashers::<RandomState>(),
                out@ == assembled(m0, i as nat),
                forall|k: u64| #[trigger] chunks@.contains_key(k) <==> (m0.contains_key(k) && k >= i),
                forall|k: u64| #[trigger] chunks@.contains_key(k) ==> chunks@[k]@ == m0[k],
            decreases n - i,
        {
            let key = i as u64;
            let got = chunks.remove(&key);
            match got {
                Some(c) => {
                    let mut c = c;
                    assert(m0.contains_key(key));
                    out.append(&mut c);
                },
                None => {
                    assert(!m0.contains_key(key));
                },
            }
            i = i + 1;
            assert(out@ =~= assembled(m0, i as nat));
        }
        out
    }
}

/// What the sender learns after sending a chunk.
pub enum SenderEvent {
    /// An acknowledgement carrying this sequence number came.
    Acknowledged(u64),
    /// No acknowledgement came in time.
    TimedOut,
}

/// What the sender does next.
#[derive(PartialEq, Eq, Structural)]
pub enum SenderAction {
    /// Send the datagram of this chunk and wait for its acknowledgement.
    SendChunk(u64),
    /// Send the closing datagram; the transfer is then over.
    SendEnd,
}

/// The stop-and-wait sender of a file of `total` chunks: it sends one chunk
/// at a time and moves to the next only when the acknowledgement of the
/// current one comes; anything else makes it send the chunk again.
pub struct Sender {
    current: u64,
    total: u64,
}

/// The action that follows once chunks below `current` are acknowledged.
pub open spec fn action_for(current: u64, total: u64) -> SenderAction {
    if current < total {
        SenderAction::SendChunk(current)
    } else {
        SenderAction::SendEnd
    }
}

/// The chunk in flight after `event` came while chunk `current` was.
pub open spec fn sender_step(current: u64, event: SenderEvent) -> u64 {
    match event {
        SenderEvent::Acknowledged(n) => if n == current {
            (current + 1) as u64
        } else {
            current
        },
        SenderEvent::TimedOut => current,
    }
}

/// The chunk in flight after `events` came one by one, starting from chunk
/// `current`, as long as chunks remain below `total`.
pub open spec fn sender_run(current: u64, total: u64, events: Seq<SenderEvent>) -> u64
    decreases events.len(),
{
    if events.len() == 0 || current >= total {
        current
    } else {
        sender_run(sender_step(current, events[0]), total, events.drop_first())
    }
}

/// Only the acknowledgement of the chunk in flight moves the sender on:
/// timeouts and acknowledgements of chunks already done leave it where it
/// is, however many of them come.
pub proof fn lemma_sender_ignores_stale_events(current: u64, total: u64, events: Seq<SenderEvent>)
    requires
        forall|i: int| 0 <= i < events.len() ==> (#[trigger] events[i] matches SenderEvent::Acknowledged(n)
            ==> n < current),
    ensures
        sender_run(current, total, events) == current,
    decreases events.len(),
{
    if events.len() > 0 && current < total {
        assert(sender_step(current, events[0]) == current);
        assert forall|i: int| 0 <= i < events.drop_first().len() implies (
        #[trigger] events.drop_first()[i] matches SenderEvent::Acknowledged(n) ==> n < current) by {
            assert(events.drop_first()[i] == events[i + 1]);
        }
        lemma_sender_ignores_stale_events(current, total, events.drop_first());
    }
}

/// No chunk is skipped: while chunk `current` is below the number of
/// chunks, the sender sends that chunk, and it sends the closing datagram
/// only once every chunk was acknowledged; in particular a sender of at
/// least one chunk starts with chunk 0.
pub proof fn lemma_sender_sends_every_chunk(current: u64, total: u64)
    ensures
        current < total ==> action_for(current, total) == SenderAction::SendChunk(current),
        current >= total ==> action_for(current, total) == SenderAction::SendEnd,
        total > 0 ==> action_for(0, total) == SenderAction::SendChunk(0),
        (action_for(current, total) == SenderAction::SendEnd) <==> current >= total,
{
}

/// Acknowledging chunks 0, 1, ... in turn, with any timeouts between,
/// takes the sender through every chunk to the closing datagram: after the
/// acknowledgements of the first `k` chunks it sends chunk `k`, and after
/// all of them it closes.
pub proof fn lemma_acknowledged_in_turn(total: u64, k: u64)
    requires
        k <= total,
    ensures
        sender_run(0, total, Seq::new(k as nat, |i: int| SenderEvent::Acknowledged(i as u64))) == k,
        action_for(
            sender_run(0, total, Seq::new(k as nat, |i: int| SenderEvent::Acknowledged(i as u64))),
            total,
        ) == if k < total {
            SenderAction::SendChunk(k)
        } else {
            SenderAction::SendEnd
        },
    decreases k,
{
    let acks = Seq::new(k as nat, |i: int| SenderEvent::Acknowledged(i as u64));
    if k > 0 {
        lemma_acknowledged_in_turn(total, (k - 1) as u64);
        let prefix = Seq::new((k - 1) as nat, |i: int| SenderEvent::Acknowledged(i as u64));
        lemma_run_append(0, total, prefix, SenderEvent::Acknowledged((k - 1) as u64));
        assert(prefix.push(SenderEvent::Acknowledged((k - 1) as u64)) =~= acks);
    }
}

/// Running through one more event is one more step.
proof fn lemma_run_append(current: u64, total: u64, events: Seq<SenderEvent>, e: SenderEvent)
    ensures
        sender_run(current, total, events.push(e)) == if sender_run(current, total, events) < total {
            sender_step(sender_run(current, total, events), e)
        } else {
            sender_run(current, total, events)
        },
    decreases events.len(),
{
    if events.len() == 0 {
        assert(events.push(e).drop_first() =~= Seq::<SenderEvent>::empty());
        assert(events.push(e)[0] == e);
        assert(sender_run(sender_step(current, e), total, Seq::<SenderEvent>::empty()) == sender_step(
            current,
            e,
        ));
    } else if current < total {
        assert(events.push(e).drop_first() =~= events.drop_first().push(e));
        assert(events.push(e)[0] == events[0]);
        lemma_run_append(sender_step(current, events[0]), total, events.drop_first(), e);
    }
}

/// The sender moves on one chunk at a time and never past the last one.
pub proof fn lemma_sender_in_order(current: u64, total: u64, events: Seq<SenderEvent>)
    requires
        current <= total,
    ensures
        current <= sender_run(current, total, events) <= total,
        sender_run(current, total, events) - current <= events.len(),
    decreases events.len(),
{
    if events.len() > 0 && current < total {
        lemma_sender_in_order(sender_step(current, events[0]), total, events.drop_first());
    }
}

impl Sender {
    /// The chunk in flight: every chunk below it was acknowledged.
    pub closed spec fn current(&self) -> u64 {
        self.current
    }

    /// The number of chunks of the file.
    pub closed spec fn total(&self) -> u64 {
        self.total
    }

    /// A sender of `total` chunks, none acknowledged, and what it does first.
    pub fn new(total: u64) -> (r: (Self, SenderAction))
        ensures
            r.0.current() == 0,
            r.0.total() == total,
            r.1 == action_for(0, total),
    {
        let action = if total == 0 {
            SenderAction::SendEnd
        } else {
            SenderAction::SendChunk(0)
        };
        (Sender { current: 0, total }, action)
    }

    /// Moves on after `event`, which came while the current chunk was in
    /// flight, and tells what to do next.
    pub fn on_event(&mut self, event: SenderEvent) -> (action: SenderAction)
        requires
            old(self).current() < old(self).total(),
        ensures
            final(self).total() == old(self).total(),
            final(self).current() == sender_step(old(self).current(), event),
            action == action_for(final(self).current(), final(self).total()),
    {
        match event {
            SenderEvent::Acknowledged(n) => {
                if n == self.current {
                    self.current = self.current + 1;
                }
            },
            SenderEvent::TimedOut => {},
        }
        if self.current < self.total {
            SenderAction::SendChunk(self.current)
        } else {
            SenderAction::SendEnd
        }
    }
}

/// The chunks that a receiver holds after the data datagrams of `data`
/// numbered `order[0]`, `order[1]`, ... came in this order, starting from
/// the chunks `m`.
pub open spec fn received_chunks(m: Map<u64, Seq<u8>>, data: Seq<u8>, order: Seq<u64>) -> Map<
    u64,
    Seq<u8>,
>
    decreases order.len(),
{
    if order.len() == 0 {
        m
    } else {
        let i = order[0];
        received_chunks(
            m.insert(i, payload_of(packet(i, chunk_of(data, i as int)))),
            data,
            order.drop_first(),
        )
    }
}

/// The datagram of chunk `i` carries the sequence number `i` and the chunk.
pub proof fn lemma_packet_roundtrip(i: u64, payload: Seq<u8>)
    ensures
        header_value(packet(i, payload)) == i,
        payload_of(packet(i, payload)) == payload,
        header_value(overlay(zero_header(), header_bytes(i))) == i,
{
    lemma_header_roundtrip(i);
    assert(packet(i, payload).subrange(0, 8) =~= header_bytes(i));
    assert(payload_of(packet(i, payload)) =~= payload);
    assert(overlay(zero_header(), header_bytes(i)) =~= header_bytes(i));
}

proof fn lemma_received_chunks_prefix(m: Map<u64, Seq<u8>>, data: Seq<u8>, order: Seq<u64>)
    requires
        forall|k: u64| #[trigger] m.contains_key(k) ==> m[k] == chunk_of(data, k as int),
    ensures
        forall|k: u64| #[trigger] received_chunks(m, data, order).contains_key(k) <==> (m.contains_key(k)
            || order.contains(k)),
        forall|k: u64| #[trigger] received_chunks(m, data, order).contains_key(k) ==> received_chunks(m, data, order)[k]
            == chunk_of(data, k as int),
    decreases order.len(),
{
    let r = received_chunks(m, data, order);
    if order.len() > 0 {
        let i = order[0];
        lemma_packet_roundtrip(i, chunk_of(data, i as int));
        let m2 = m.insert(i, payload_of(packet(i, chunk_of(data, i as int))));
        let rest = order.drop_first();
        assert(r == received_chunks(m2, data, rest));
        lemma_received_chunks_prefix(m2, data, rest);
        assert forall|k: u64| #[trigger] r.contains_key(k) <==> (m.contains_key(k) || order.contains(k)) by {
            if order.contains(k) {
                let j = choose|j: int| 0 <= j < order.len() && order[j] == k;
                if j > 0 {
                    assert(rest[j - 1] == k);
                }
            }
            if rest.contains(k) {
                let j = choose|j: int| 0 <= j < rest.len() && rest[j] == k;
                assert(order[j + 1] == k);
            }
            if k == i {
                assert(order[0] == k);
            }
        }
    } else {
        assert forall|k: u64| #[trigger] r.contains_key(k) <==> (m.contains_key(k) || order.contains(k)) by {
            if order.contains(k) {
                let j = choose|j: int| 0 <= j < order.len() && order[j] == k;
            }
        }
    }
}

proof fn lemma_assembled_chunks(data: Seq<u8>, n: nat)
    requires
        data.len() <= u64::MAX,
        n <= chunk_count(data.len()),
    ensures
        assembled(chunk_map(data), n) == data.subrange(
            0,
            if n * CHUNK_SIZE < data.len() {
                n * CHUNK_SIZE
            } else {
                data.len() as int
            },
        ),
    decreases n,
{
    if n > 0 {
        lemma_assembled_chunks(data, (n - 1) as nat);
        let k = (n - 1) as u64;
        assert(chunk_map(data).contains_key(k));
        assert((n - 1) * CHUNK_SIZE < data.len()) by (nonlinear_arith)
            requires
                n <= chunk_count(data.len()),
                chunk_count(data.len()) == (data.len() + 65007) / 65008,
                n > 0,
        ;
        assert((n - 1) * CHUNK_SIZE + CHUNK_SIZE == n * CHUNK_SIZE) by (nonlinear_arith);
        assert(data.subrange(0, (n - 1) * CHUNK_SIZE) + chunk_of(data, k as int) =~= data.subrange(
            0,
            if n * CHUNK_SIZE < data.len() {
                n * CHUNK_SIZE
            } else {
                data.len() as int
            },
        ));
    } else {
        assert(data.subrange(0, 0) =~= Seq::<u8>::empty());
    }
}

/// A file comes through whole: once a receiver holds the chunk datagrams of
/// `data`, every one of them at least once, in any order and with repeats,
/// the file it puts together is `data`.
pub proof fn lemma_transfer_roundtrip(data: Seq<u8>, order: Seq<u64>)
    requires
        data.len() <= u64::MAX,
        forall|j: int| 0 <= j < order.len() ==> (#[trigger] order[j] as int) < chunk_count(data.len()),
        forall|k: u64| (k as int) < chunk_count(data.len()) ==> #[trigger] order.contains(k),
    ensures
        received_chunks(Map::empty(), data, order) == chunk_map(data),
        assembled(chunk_map(data), chunk_map(data).len()) == data,
{
    lemma_received_chunks_prefix(Map::empty(), data, order);
    assert(received_chunks(Map::empty(), data, order) =~= chunk_map(data));
    let n = chunk_count(data.len());
    assert(n <= u64::MAX) by (nonlinear_arith)
        requires
            n == (data.len() + 65007) / 65008,
            data.len() <= u64::MAX,
    ;
    lemma_numbers_below(n);
    assert(chunk_map(data).dom() =~= Set::new(|k: u64| (k as int) < n));
    lemma_assembled_chunks(data, n);
    assert(n * CHUNK_SIZE >= data.len()) by (nonlinear_arith)
        requires
            n == (data.len() + 65007) / 65008,
    ;
    assert(data.subrange(0, data.len() as int) =~= data);
}

/// The numbers below `n` form a finite set of `n` elements.
proof fn lemma_numbers_below(n: nat)
    requires
        n <= u64::MAX + 1,
    ensures
        Set::new(|k: u64| (k as int) < n).finite(),
        Set::new(|k: u64| (k as int) < n).len() == n,
    decreases n,
{
    if n == 0 {
        assert(Set::new(|k: u64| (k as int) < n) =~= Set::<u64>::empty());
    } else {
        lemma_numbers_below((n - 1) as nat);
        let below = Set::new(|k: u64| (k as int) < n - 1);
        assert(Set::new(|k: u64| (k as int) < n) =~= below.insert((n - 1) as u64));
    }
}

/// The four bytes of `v` in two's complement, most significant first.
pub open spec fn id_bytes(v: i32) -> Seq<u8> {
    seq![
        (((v as u32) >> 24u32) & 0xffu32) as u8,
        (((v as u32) >> 16u32) & 0xffu32) as u8,
        (((v as u32) >> 8u32) & 0xffu32) as u8,
        ((v as u32) & 0xffu32) as u8,
    ]
}

/// The number whose four two's complement bytes, most significant first,
/// are `b[0..4]`.
pub open spec fn id_value(b: Seq<u8>) -> i32
    recommends
        b.len() >= 4,
{
    (((b[0] as u32) << 24u32) | ((b[1] as u32) << 16u32) | ((b[2] as u32) << 8u32) | (
    b[3] as u32)) as i32
}

/// The four bytes, most significant first, that carry a server's id.
pub fn encode_id(v: i32) -> (r: Vec<u8>)
    ensures
        r@ == id_bytes(v),
{
    let u = v as u32;
    let mut r: Vec<u8> = Vec::new();
    r.push(((u >> 24u32) & 0xffu32) as u8);
    r.push(((u >> 16u32) & 0xffu32) as u8);
    r.push(((u >> 8u32) & 0xffu32) as u8);
    r.push((u & 0xffu32) as u8);
    assert(r@ =~= id_bytes(v));
    r
}

/// The id that a datagram `d` carries, as read into a fresh four-byte
/// buffer: missing bytes stay zero, bytes past the fourth are cut off.
pub fn id_from_datagram(d: &[u8]) -> (r: i32)
    ensures
        r == id_value(Seq::new(4, |k: int| if k < d@.len() { d@[k] } else { 0u8 })),
{
    let b0: u8 = if d.len() > 0 { d[0] } else { 0 };
    let b1: u8 = if d.len() > 1 { d[1] } else { 0 };
    let b2: u8 = if d.len() > 2 { d[2] } else { 0 };
    let b3: u8 = if d.len() > 3 { d[3] } else { 0 };
    let ghost b = Seq::new(4, |k: int| if k < d@.len() { d@[k] } else { 0u8 });
    assert(b[0] == b0 && b[1] == b1 && b[2] == b2 && b[3] == b3);
    (((b0 as u32) << 24u32) | ((b1 as u32) << 16u32) | ((b2 as u32) << 8u32) | (b3 as u32)) as i32
}

/// An id sent as four bytes is read back unchanged.
pub proof fn lemma_id_roundtrip(v: i32)
    ensures
        id_value(id_bytes(v)) == v,
{
    let u = v as u32;
    let b = id_bytes(v);
    assert(id_value(b) == ((((((u >> 24u32) & 0xffu32) as u8) as u32) << 24u32) | (((((u >> 16u32)
        & 0xffu32) as u8) as u32) << 16u32) | (((((u >> 8u32) & 0xffu32) as u8) as u32) << 8u32) | (((u
        & 0xffu32) as u8) as u32)) as i32);
    assert(((((((u >> 24u32) & 0xffu32) as u8) as u32) << 24u32) | (((((u >> 16u32) & 0xffu32) as u8)
        as u32) << 16u32) | (((((u >> 8u32) & 0xffu32) as u8) as u32) << 8u32) | (((u & 0xffu32) as u8)
        as u32)) == u) by (bit_vector);
    assert((v as u32) as i32 == v) by (bit_vector);
}

/// The text of the message that asks a server to encode an image.
pub open spec fn request_text() -> Seq<char> {
    seq!['R', 'e', 'q', 'u', 'e', 's', 't']
}

/// Whether a server takes up `message`: it must be a request to encode an
/// image, and the server must hold the work token.
pub fn serves_request(message: &str, holds_work_token: bool) -> (r: bool)
    ensures
        r == (message@ == request_text() && holds_work_token),
{
    let request = "Request";
    proof {
        reveal_strlit("Request");
    }
    assert(request@ =~= request_text());
    crate::text::same_text(message, request) && holds_work_token
}

/// The text of the message that asks a peer for its images.
pub open spec fn view_all_text() -> Seq<char> {
    seq!['v', 'i', 'e', 'w', ' ', 'a', 'l', 'l']
}

/// Whether `message` asks a peer for its images.
pub fn is_view_all(message: &str) -> (r: bool)
    ensures
        r == (message@ == view_all_text()),
{
    let view_all = "view all";
    proof {
        reveal_strlit("view all");
    }
    assert(view_all@ =~= view_all_text());
    crate::text::same_text(message, view_all)
}

/// Whether `reply` is the acknowledgement `ACK` of a peer that is online.
pub fn is_ack(reply: &str) -> (r: bool)
    ensures
        r == (reply@ == seq!['A', 'C', 'K']),
{
    let ack = "ACK";
    proof {
        reveal_strlit("ACK");
    }
    assert(ack@ =~= seq!['A', 'C', 'K']);
    crate::text::same_text(reply, ack)
}

} // verus!
