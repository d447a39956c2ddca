//! The write-ahead event log.
//!
//! Events are appended as length-framed records to a current log file; when
//! the file would grow past the configured maximum the log rotates to a new
//! file with the next sequential index, and every rotation file is kept for
//! replay. The framing is self-delimiting, so a reader recovers each
//! record's extent from the record itself: a file truncated mid-record (a
//! crash) still yields every complete record before the truncation.
//!
//! The manager here holds the log's state and decides framing and rotation;
//! the caller owns the files and carries each decision out.

use vstd::prelude::*;
use crate::bytes::{enc_u64_le, dec_u64_le, enc_len_bytes, put_len_bytes, lemma_u64_le_round_trip};
use crate::config::GeyserPluginCosConfig;
use crate::event::{Event, EventReceiver};

verus! {

/// The on-disk form of one record: an eight-byte little-endian length, then
/// the payload.
pub open spec fn spec_frame(data: Seq<u8>) -> Seq<u8> {
    enc_len_bytes(data)
}

/// The concatenated frames of a sequence of payloads: the content of a log
/// file that was written without interruption.
pub open spec fn spec_frames(ds: Seq<Seq<u8>>) -> Seq<u8>
    decreases ds.len(),
{
    if ds.len() == 0 {
        Seq::empty()
    } else {
        spec_frame(ds[0]) + spec_frames(ds.drop_first())
    }
}

/// Every complete record at the front of `buf`: reading stops at the first
/// record whose frame runs past the end of the buffer.
pub open spec fn spec_parse_events(buf: Seq<u8>) -> Seq<Seq<u8>>
    decreases buf.len(),
{
    if buf.len() < 8 {
        Seq::empty()
    } else {
        let n = dec_u64_le(buf.subrange(0, 8)) as int;
        if 8 + n <= buf.len() {
            seq![buf.subrange(8, 8 + n)] + spec_parse_events(buf.skip(8 + n))
        } else {
            Seq::empty()
        }
    }
}

/// A buffer that holds no complete record: it ends inside a header or inside
/// a payload.
pub open spec fn spec_incomplete_frame(tail: Seq<u8>) -> bool {
    tail.len() < 8 || 8 + dec_u64_le(tail.subrange(0, 8)) > tail.len()
}

/// Parsing a buffer that starts with one whole frame yields that frame's
/// payload, then whatever the rest parses to.
pub proof fn lemma_parse_peels_frame(d0: Seq<u8>, rest: Seq<u8>)
    requires
        d0.len() <= u64::MAX,
    ensures
        spec_parse_events(spec_frame(d0) + rest) == seq![d0] + spec_parse_events(rest),
{
    let buf = spec_frame(d0) + rest;
    lemma_u64_le_round_trip(d0.len() as u64);
    assert(buf.subrange(0, 8) =~= enc_u64_le(d0.len() as u64));
    let n = dec_u64_le(buf.subrange(0, 8)) as int;
    assert(n == d0.len());
    assert(buf.subrange(8, 8 + n) =~= d0);
    assert(buf.skip(8 + n) =~= rest);
    assert(spec_parse_events(buf) =~= seq![d0] + spec_parse_events(rest));
}

/// Parsing an uninterrupted log of framed payloads, followed by at most a
/// torn tail, recovers exactly those payloads.
#[verifier::spinoff_prover]
#[verifier::rlimit(100)]
pub proof fn lemma_parse_recovers_frames(ds: Seq<Seq<u8>>, tail: Seq<u8>)
    requires
        forall|i: int| 0 <= i < ds.len() ==> #[trigger] ds[i].len() <= u64::MAX,
        spec_incomplete_frame(tail),
    ensures
        spec_parse_events(spec_frames(ds) + tail) == ds,
    decreases ds.len(),
{
    if ds.len() == 0 {
        assert(spec_frames(ds) + tail =~= tail);
        assert(spec_parse_events(tail) =~= Seq::<Seq<u8>>::empty());
    } else {
        let rest = ds.drop_first();
        lemma_parse_recovers_frames(rest, tail);
        assert(spec_frames(ds) + tail =~= spec_frame(ds[0]) + (spec_frames(rest) + tail));
        lemma_parse_peels_frame(ds[0], spec_frames(rest) + tail);
        assert(seq![ds[0]] + rest =~= ds);
    }
}

/// How many whole frames of `ds` fit in the first `p` bytes of the log.
pub open spec fn spec_complete_prefix(ds: Seq<Seq<u8>>, p: int) -> int
    decreases ds.len(),
{
    if ds.len() == 0 {
        0
    } else if p >= 8 + ds[0].len() {
        1 + spec_complete_prefix(ds.drop_first(), p - (8 + ds[0].len()))
    } else {
        0
    }
}

/// A log file cut off after `p` bytes — a crash mid-write — still parses to
/// every record whose frame lies wholly before the cut, in order, and the
/// reader is not deceived by the torn record after them.
pub proof fn lemma_parse_truncated(ds: Seq<Seq<u8>>, p: int)
    requires
        forall|i: int| 0 <= i < ds.len() ==> #[trigger] ds[i].len() <= u64::MAX,
        0 <= p <= spec_frames(ds).len(),
    ensures
        0 <= spec_complete_prefix(ds, p) <= ds.len(),
        spec_parse_events(spec_frames(ds).take(p)) == ds.take(spec_complete_prefix(ds, p)),
        p == spec_frames(ds).len() ==> spec_complete_prefix(ds, p) == ds.len(),
    decreases ds.len(),
{
    if ds.len() == 0 {
        assert(spec_frames(ds).take(p) =~= Seq::<u8>::empty());
        assert(ds.take(0) =~= Seq::<Seq<u8>>::empty());
    } else {
        let d0 = ds[0];
        let rest = ds.drop_first();
        let frame0 = spec_frame(d0);
        let whole = spec_frames(ds);
        assert(whole =~= frame0 + spec_frames(rest));
        if p >= frame0.len() {
            let p2 = p - frame0.len();
            lemma_parse_truncated(rest, p2);
            assert(whole.take(p) =~= frame0 + spec_frames(rest).take(p2));
            lemma_parse_peels_frame(d0, spec_frames(rest).take(p2));
            let k = spec_complete_prefix(rest, p2);
            assert(spec_complete_prefix(ds, p) == 1 + k);
            assert(seq![d0] + rest.take(k) =~= ds.take(1 + k));
        } else {
            let cut = whole.take(p);
            assert(spec_complete_prefix(ds, p) == 0);
            assert(ds.take(0) =~= Seq::<Seq<u8>>::empty());
            if p < 8 {
                assert(spec_parse_events(cut) =~= Seq::<Seq<u8>>::empty());
            } else {
                lemma_u64_le_round_trip(d0.len() as u64);
                assert(cut.subrange(0, 8) =~= enc_u64_le(d0.len() as u64));
                assert(8 + dec_u64_le(cut.subrange(0, 8)) > cut.len());
                assert(spec_parse_events(cut) =~= Seq::<Seq<u8>>::empty());
            }
        }
    }
}

/// The payloads of a sequence of events.
pub open spec fn events_data(evs: Seq<Event>) -> Seq<Seq<u8>> {
    evs.map_values(|e: Event| e.data@)
}

/// Serializes one event into its length-framed on-disk form.
pub fn frame_event(event: &Event) -> (r: Vec<u8>)
    requires
        event.data@.len() <= u64::MAX,
    ensures
        r@ == spec_frame(event.data@),
{
    let mut out: Vec<u8> = Vec::new();
    put_len_bytes(&mut out, &event.data);
    assert(out@ =~= spec_frame(event.data@));
    out
}

/// Reads every complete record at the front of `buf`, exactly as
/// `spec_parse_events` describes; a torn record at the end is left unread
/// and deserializes nothing after it.
pub fn parse_events(buf: &Vec<u8>) -> (r: Vec<Event>)
    ensures
        events_data(r@) == spec_parse_events(buf@),
{
    let mut events: Vec<Event> = Vec::new();
    let mut pos: usize = 0;
    let l: usize = buf.len();
    proof {
        assert(buf@.skip(0) =~= buf@);
        assert(events_data(events@) =~= Seq::<Seq<u8>>::empty());
        assert(events_data(events@) + spec_parse_events(buf@) =~= spec_parse_events(buf@));
    }
    loop
        invariant
            pos <= l,
            l == buf@.len(),
            events_data(events@) + spec_parse_events(buf@.skip(pos as int)) == spec_parse_events(
                buf@,
            ),
        ensures
            events_data(events@) == spec_parse_events(buf@),
        decreases l - pos,
    {
        if l - pos < 8 {
            assert(spec_parse_events(buf@.skip(pos as int)) =~= Seq::<Seq<u8>>::empty());
            assert(events_data(events@) + Seq::<Seq<u8>>::empty() =~= events_data(events@));
            break ;
        }
        let n64 = crate::bytes::get_u64_le(buf, pos);
        proof {
            assert(buf@.skip(pos as int).subrange(0, 8) =~= buf@.subrange(pos as int, pos + 8));
        }
        if n64 > (l - pos - 8) as u64 {
            assert(spec_parse_events(buf@.skip(pos as int)) =~= Seq::<Seq<u8>>::empty());
            assert(events_data(events@) + Seq::<Seq<u8>>::empty() =~= events_data(events@));
            break ;
        }
        let n: usize = n64 as usize;
        let mut payload: Vec<u8> = Vec::new();
        let start: usize = pos + 8;
        let mut i: usize = start;
        while i < start + n
            invariant
                start <= i <= start + n,
                start + n <= l,
                l == buf@.len(),
                payload@ == buf@.subrange(start as int, i as int),
            decreases start + n - i,
        {
            payload.push(buf[i]);
            assert(payload@ =~= buf@.subrange(start as int, i + 1));
            i = i + 1;
        }
        proof {
            let tail = buf@.skip(pos as int);
            let m = dec_u64_le(tail.subrange(0, 8)) as int;
            assert(m == n64);
            assert(tail.subrange(8, 8 + m) =~= buf@.subrange(start as int, (start + n) as int));
            assert(tail.skip(8 + m) =~= buf@.skip((start + n) as int));
            assert(spec_parse_events(tail) == seq![tail.subrange(8, 8 + m)] + spec_parse_events(
                tail.skip(8 + m),
            ));
        }
        let ghost old_events = events@;
        events.push(Event::new(payload));
        pos = start + n;
        proof {
            assert(events_data(events@) =~= events_data(old_events).push(
                buf@.subrange(start as int, pos as int),
            ));
            assert(events_data(events@) + spec_parse_events(buf@.skip(pos as int))
                =~= spec_parse_events(buf@));
        }
    }
    events
}

/// Reads every complete record at the front of `buf` and hands each, in
/// order, to the receiver; stops at the receiver's first refusal. A torn
/// record at the end of the buffer — a crash mid-write — is not dispatched
/// and does not disturb the records before it.
pub fn replay_events<R: EventReceiver>(receiver: &mut R, buf: &Vec<u8>) -> (r: Result<usize, ()>)
    ensures
        r matches Ok(n) ==> n == spec_parse_events(buf@).len(),
        spec_parse_events(buf@).len() == 0 ==> r is Ok,
{
    let events = parse_events(buf);
    let total: usize = events.len();
    let mut remaining = events;
    let mut n: usize = 0;
    while remaining.len() > 0
        invariant
            n + remaining@.len() == total,
            total == spec_parse_events(buf@).len(),
        decreases remaining@.len(),
    {
        let event = remaining.remove(0);
        match receiver.receive(event) {
            Ok(_) => {},
            Err(_) => {
                return Err(());
            },
        }
        n = n + 1;
    }
    Ok(n)
}

/// What one append asks of the file layer: optionally open a fresh log file
/// with the given index first, then write the bytes to the current file.
pub struct AppendPlan {
    pub rotate_to: Option<u64>,
    pub bytes: Vec<u8>,
}

/// The write-ahead log's bookkeeping: the rotation threshold, how many bytes
/// the current file holds, and the current file's index.
pub struct LogManager {
    max_file_size: u64,
    current_file_size: u64,
    file_index: u64,
}

impl LogManager {
    /// The configured rotation threshold in bytes.
    pub closed spec fn spec_max_file_size(&self) -> u64 {
        self.max_file_size
    }

    /// The byte count of the current log file.
    pub closed spec fn spec_current_file_size(&self) -> u64 {
        self.current_file_size
    }

    /// The index of the current log file.
    pub closed spec fn spec_file_index(&self) -> u64 {
        self.file_index
    }

    /// The byte count of the current log file, for the caller's own
    /// bookkeeping.
    pub fn current_size(&self) -> (r: u64)
        ensures
            r == self.spec_current_file_size(),
    {
        self.current_file_size
    }

    /// The index of the current log file.
    pub fn current_index(&self) -> (r: u64)
        ensures
            r == self.spec_file_index(),
    {
        self.file_index
    }

    /// Starts the log over an existing workspace: the caller reports the
    /// latest on-disk file index and that file's size.
    pub fn new(config: &GeyserPluginCosConfig, file_index: u64, current_file_size: u64) -> (r:
        Self)
        requires
            config.max_file_size_mb * 1024 * 1024 <= u64::MAX,
        ensures
            r.spec_max_file_size() == config.max_file_size_mb * 1024 * 1024,
            r.spec_current_file_size() == current_file_size,
            r.spec_file_index() == file_index,
    {
        LogManager {
            max_file_size: config.max_file_size_mb * 1024 * 1024,
            current_file_size,
            file_index,
        }
    }

    /// Frames one event and accounts for it, rotating first when the write
    /// would push the current file past the maximum size. The returned plan
    /// carries the rotation decision and the exact bytes to append;
    /// flushing before a rotation is the file layer's duty, so no unflushed
    /// byte is lost.
    pub fn append_event(&mut self, event: &Event) -> (plan: AppendPlan)
        requires
            old(self).spec_file_index() < u64::MAX,
            old(self).spec_current_file_size() + 8 + event.data@.len() <= u64::MAX,
        ensures
            plan.bytes@ == spec_frame(event.data@),
            plan.bytes@.len() == 8 + event.data@.len(),
            final(self).spec_max_file_size() == old(self).spec_max_file_size(),
            old(self).spec_current_file_size() + 8 + event.data@.len() > old(
                self,
            ).spec_max_file_size() ==> {
                &&& plan.rotate_to == Some((old(self).spec_file_index() + 1) as u64)
                &&& final(self).spec_file_index() == old(self).spec_file_index() + 1
                &&& final(self).spec_current_file_size() == plan.bytes@.len()
            },
            old(self).spec_current_file_size() + 8 + event.data@.len() <= old(
                self,
            ).spec_max_file_size() ==> {
                &&& plan.rotate_to is None
                &&& final(self).spec_file_index() == old(self).spec_file_index()
                &&& final(self).spec_current_file_size() == old(self).spec_current_file_size()
                    + plan.bytes@.len()
            },
    {
        let bytes = frame_event(event);
        let frame_len = bytes.len() as u64;
        let rotate_to: Option<u64> = if self.current_file_size + frame_len > self.max_file_size {
            self.file_index = self.file_index + 1;
            self.current_file_size = 0;
            Some(self.file_index)
        } else {
            None
        };
        self.current_file_size = self.current_file_size + frame_len;
        AppendPlan { rotate_to, bytes }
    }
}

} // verus!
