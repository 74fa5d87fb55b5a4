use std::sync::atomic::{AtomicBool, Ordering};
use std::sync::mpsc::{Receiver, RecvTimeoutError, SyncSender};
use std::sync::Arc;
use vstd::prelude::*;

use crate::broadcast::{BufferData, Timestamp};

verus! {

#[verifier::external_type_specification]
#[verifier::external_body]
#[verifier::reject_recursive_types(T)]
pub struct ExSyncSender<T>(SyncSender<T>);

#[verifier::external_type_specification]
#[verifier::external_body]
#[verifier::reject_recursive_types(T)]
pub struct ExReceiver<T>(Receiver<T>);

/// Frames a transcoder has cut for one stream, passed to the player through
/// a bounded channel; the player takes them with [`QR::next_buf`].
pub struct QW {
    queue: SyncSender<BufferData>,
    buf: Vec<u8>,
    writing_header: bool,
    writing_trailer: bool,
    done: Arc<AtomicBool>,
    sent: Ghost<Seq<BufferData>>,
    looked: Ghost<Seq<bool>>,
}

/// The player's end of a [`QW`].
pub struct QR {
    pub done: Arc<AtomicBool>,
    queue: Receiver<BufferData>,
}

/// What waiting briefly on a [`QR`] gave.
pub enum BufferRes {
    Data(BufferData),
    Timeout,
    Done,
}

/// Wraps `std::sync::mpsc::sync_channel`: a channel holding at most
/// `bound` values in flight. Nothing is stated of the ends.
#[verifier::external_body]
fn sync_channel(bound: usize) -> (SyncSender<BufferData>, Receiver<BufferData>) {
    std::sync::mpsc::sync_channel(bound)
}

/// Wraps `SyncSender::send`: `true` when the value was handed over, `false`
/// when the receiving end is gone. Which of the two happens depends on the
/// other thread, so nothing more is stated.
#[verifier::external_body]
fn channel_send(q: &SyncSender<BufferData>, d: BufferData) -> bool {
    q.send(d).is_ok()
}

/// Wraps `Receiver::recv_timeout` with a wait of `millis` milliseconds,
/// telling its three outcomes apart. What comes back depends on the other
/// thread and on time, so nothing is stated.
#[verifier::external_body]
fn channel_recv_timeout(q: &Receiver<BufferData>, millis: u64) -> BufferRes {
    match q.recv_timeout(std::time::Duration::from_millis(millis)) {
        Ok(b) => BufferRes::Data(b),
        Err(RecvTimeoutError::Timeout) => BufferRes::Timeout,
        Err(RecvTimeoutError::Disconnected) => BufferRes::Done,
    }
}

/// Frames in flight between a transcoder and its player.
pub const QUEUE_BOUND: usize = 15;

/// How long the player waits for a frame before it looks again.
pub const RECV_WAIT_MS: u64 = 10;

/// What a write of `buf` to a writer in state `w0` did, leaving it in `w1`
/// with result `r`: once the trailer has begun it takes everything without
/// looking at the reader; before, it looks once whether the reader has let
/// go, and takes everything if not and nothing if so.
pub open spec fn collected(w0: QW, buf: Seq<u8>, w1: QW, r: Result<usize, ()>) -> bool {
    if w0.spec_writing_trailer() {
        &&& w1.spec_looked() == w0.spec_looked()
        &&& r == Ok::<usize, ()>(buf.len() as usize)
        &&& w1.spec_buf() == w0.spec_buf() + buf
    } else {
        &&& w1.spec_looked() == w0.spec_looked().push(w1.spec_looked().last())
        &&& if w1.spec_looked().last() {
            r is Err && w1.spec_buf() == w0.spec_buf()
        } else {
            r == Ok::<usize, ()>(buf.len() as usize) && w1.spec_buf() == w0.spec_buf() + buf
        }
    }
}

/// A connected writer and reader, sharing one "done" flag, starting in header mode.
pub fn new() -> (r: (QW, QR))
    ensures
        r.0.spec_writing_header(),
        !r.0.spec_writing_trailer(),
        r.0.spec_buf() == Seq::<u8>::empty(),
        r.0.spec_sent() == Seq::<BufferData>::empty(),
        r.0.spec_looked() == Seq::<bool>::empty(),
{
    let (tx, rx) = sync_channel(QUEUE_BOUND);
    let done = Arc::new(AtomicBool::new(false));
    (QW::new(tx, done.clone()), QR { queue: rx, done })
}

impl QW {
    pub closed spec fn spec_buf(&self) -> Seq<u8> {
        self.buf@
    }

    pub closed spec fn spec_writing_header(&self) -> bool {
        self.writing_header
    }

    pub closed spec fn spec_writing_trailer(&self) -> bool {
        self.writing_trailer
    }

    /// Every piece handed to the channel so far, in order.
    pub closed spec fn spec_sent(&self) -> Seq<BufferData> {
        self.sent@
    }

    fn new(q: SyncSender<BufferData>, done: Arc<AtomicBool>) -> (w: QW)
        ensures
            w.spec_writing_header(),
            !w.spec_writing_trailer(),
            w.spec_buf() == Seq::<u8>::empty(),
            w.spec_sent() == Seq::<BufferData>::empty(),
            w.spec_looked() == Seq::<bool>::empty(),
    {
        QW {
            queue: q,
            buf: Vec::new(),
            writing_header: true,
            writing_trailer: false,
            done,
            sent: Ghost(Seq::empty()),
            looked: Ghost(Seq::empty()),
        }
    }

    /// Whether the reader has let go, as seen at the moment of the call; the
    /// answer joins the record of what was seen.
    fn done(&mut self) -> (d: bool)
        ensures
            final(self).spec_looked() == old(self).spec_looked().push(d),
            final(self).spec_buf() == old(self).spec_buf(),
            final(self).spec_sent() == old(self).spec_sent(),
            final(self).spec_writing_header() == old(self).spec_writing_header(),
            final(self).spec_writing_trailer() == old(self).spec_writing_trailer(),
    {
        let d = self.done.load(Ordering::Acquire);
        self.looked = Ghost(self.looked@.push(d));
        d
    }

    /// Every answer to "has the reader let go?" that this writer saw, in
    /// order.
    pub closed spec fn spec_looked(&self) -> Seq<bool> {
        self.looked@
    }

    /// Collects encoded bytes until the next header, frame or trailer is cut.
    /// Before the trailer the writer first looks whether the reader has let
    /// go, and is refused exactly when it has (see [`collected`]).
    pub fn write(&mut self, buf: &[u8]) -> (r: Result<usize, ()>)
        ensures
            final(self).spec_writing_header() == old(self).spec_writing_header(),
            final(self).spec_writing_trailer() == old(self).spec_writing_trailer(),
            final(self).spec_sent() == old(self).spec_sent(),
            collected(*old(self), buf@, *final(self), r),
            match r {
                Ok(n) => n == buf@.len() && final(self).spec_buf() == old(self).spec_buf() + buf@,
                Err(_) => !old(self).spec_writing_trailer() && final(self).spec_buf() == old(self).spec_buf(),
            },
    {
        if self.writing_trailer {
            append(&mut self.buf, buf);
            Ok(buf.len())
        } else if self.done() {
            Err(())
        } else {
            append(&mut self.buf, buf);
            Ok(buf.len())
        }
    }

    /// Nothing is held back: collected bytes wait for the next cut anyway.
    pub fn flush(&mut self) -> (r: Result<(), ()>)
        ensures
            r is Ok,
            final(self).spec_buf() == old(self).spec_buf(),
            final(self).spec_sent() == old(self).spec_sent(),
            final(self).spec_writing_header() == old(self).spec_writing_header(),
            final(self).spec_writing_trailer() == old(self).spec_writing_trailer(),
    {
        Ok(())
    }

    /// The header is complete: what was collected is handed to the channel
    /// as the header, and collecting starts afresh.
    pub fn header_written(&mut self)
        ensures
            !final(self).spec_writing_header(),
            final(self).spec_writing_trailer() == old(self).spec_writing_trailer(),
            final(self).spec_buf() == Seq::<u8>::empty(),
            final(self).spec_sent() == old(self).spec_sent().push(final(self).spec_sent().last()),
            final(self).spec_sent().last() is Header,
            final(self).spec_sent().last().bytes() == old(self).spec_buf(),
    {
        self.writing_header = false;
        let mut ob: Vec<u8> = Vec::new();
        std::mem::swap(&mut ob, &mut self.buf);
        let bd = BufferData::Header(ob);
        self.sent = Ghost(self.sent@.push(bd));
        if !channel_send(&self.queue, bd) {
            self.done.store(true, Ordering::Release);
        }
    }

    /// A frame is complete: unless the trailer has begun, what was collected
    /// is handed to the channel as a frame with its time, and collecting
    /// starts afresh.
    pub fn packet_written(&mut self, pts: Timestamp)
        ensures
            final(self).spec_writing_header() == old(self).spec_writing_header(),
            final(self).spec_writing_trailer() == old(self).spec_writing_trailer(),
            final(self).spec_buf() == if old(self).spec_writing_trailer() {
                old(self).spec_buf()
            } else {
                Seq::<u8>::empty()
            },
            old(self).spec_writing_trailer() ==> final(self).spec_sent() == old(self).spec_sent(),
            !old(self).spec_writing_trailer() ==> {
                &&& final(self).spec_sent() == old(self).spec_sent().push(final(self).spec_sent().last())
                &&& final(self).spec_sent().last() matches BufferData::Frame { data, pts: p } && data@
                    == old(self).spec_buf() && p == pts
            },
    {
        if self.writing_trailer {
            return;
        }
        let mut ob: Vec<u8> = Vec::new();
        std::mem::swap(&mut ob, &mut self.buf);
        let bd = BufferData::Frame { data: ob, pts };
        self.sent = Ghost(self.sent@.push(bd));
        if !channel_send(&self.queue, bd) {
            self.done.store(true, Ordering::Release);
        }
    }

    /// The body is complete; what follows is the trailer.
    pub fn body_written(&mut self)
        ensures
            final(self).spec_writing_trailer(),
            final(self).spec_writing_header() == old(self).spec_writing_header(),
            final(self).spec_buf() == old(self).spec_buf(),
            final(self).spec_sent() == old(self).spec_sent(),
    {
        self.writing_trailer = true;
    }

    /// Once the trailer has begun, what was collected is handed to the
    /// channel as the trailer and collecting starts afresh; before that,
    /// nothing happens.
    pub fn send_trailer(&mut self)
        ensures
            final(self).spec_writing_header() == old(self).spec_writing_header(),
            final(self).spec_writing_trailer() == old(self).spec_writing_trailer(),
            old(self).spec_writing_trailer() ==> {
                &&& final(self).spec_buf() == Seq::<u8>::empty()
                &&& final(self).spec_sent() == old(self).spec_sent().push(final(self).spec_sent().last())
                &&& final(self).spec_sent().last() is Trailer
                &&& final(self).spec_sent().last().bytes() == old(self).spec_buf()
            },
            !old(self).spec_writing_trailer() ==> final(self).spec_sent() == old(self).spec_sent()
                && final(self).spec_buf() == old(self).spec_buf(),
    {
        if self.writing_trailer {
            let mut ob: Vec<u8> = Vec::new();
            std::mem::swap(&mut ob, &mut self.buf);
            let bd = BufferData::Trailer(ob);
            self.sent = Ghost(self.sent@.push(bd));
            let _ = channel_send(&self.queue, bd);
        }
    }

    /// The writer is finished: a begun trailer is sent on, as
    /// [`QW::send_trailer`] says, and the pair is marked done.
    pub fn finish(self) {
        let mut w = self;
        w.send_trailer();
        w.done.store(true, Ordering::Release);
    }
}

impl QR {
    /// Waits briefly for the next piece of the stream.
    pub fn next_buf(&self) -> BufferRes {
        channel_recv_timeout(&self.queue, RECV_WAIT_MS)
    }

    /// Tells the writer to stop.
    pub fn finish(&self) {
        self.done.store(true, Ordering::Release);
    }
}

/// Appends `src` to `dst`.
fn append(dst: &mut Vec<u8>, src: &[u8])
    ensures
        final(dst)@ == old(dst)@ + src@,
{
    let mut k: usize = 0;
    let ghost d0 = dst@;
    while k < src.len()
        invariant
            k <= src@.len(),
            d0 == old(dst)@,
            dst@ == d0 + src@.subrange(0, k as int),
        decreases src@.len() - k,
    {
        dst.push(src[k]);
        k = k + 1;
        proof {
            assert(dst@ =~= d0 + src@.subrange(0, k as int));
        }
    }
    proof {
        assert(src@.subrange(0, src@.len() as int) =~= src@);
    }
}


/// A writer whose reader has let go is refused until the trailer begins, in
/// header mode and in body mode alike, and keeps nothing of what it was
/// given; one whose reader is still there, or whose trailer has begun,
/// takes all of it. Before the trailer, each write looks at the reader
/// exactly once.
pub proof fn law_refused_once_reader_left(w0: QW, buf: Seq<u8>, w1: QW, r: Result<usize, ()>)
    requires
        collected(w0, buf, w1, r),
    ensures
        !w0.spec_writing_trailer() ==> w1.spec_looked().len() == w0.spec_looked().len() + 1,
        !w0.spec_writing_trailer() && w1.spec_looked().last() ==> r is Err && w1.spec_buf() == w0.spec_buf(),
        w0.spec_writing_trailer() || !w1.spec_looked().last() ==> r == Ok::<usize, ()>(buf.len() as usize)
            && w1.spec_buf() == w0.spec_buf() + buf,
{
}

} // verus!
