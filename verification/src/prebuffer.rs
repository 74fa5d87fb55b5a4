use std::sync::mpsc::Sender;
use std::sync::Arc;
use vstd::prelude::*;

use crate::kaeru::Metadata;
use crate::tc_queue;

verus! {

/// One stream's worth of a song being transcoded ahead of time, with the
/// song's tags.
pub struct PreBuffer {
    pub buffer: tc_queue::QR,
    pub metadata: Arc<Metadata>,
}

impl PreBuffer {
    pub fn new(buffer: tc_queue::QR, md: Arc<Metadata>) -> (p: PreBuffer)
        ensures
            p.buffer == buffer,
            p.metadata == md,
    {
        PreBuffer { buffer, metadata: md }
    }
}

#[verifier::external_type_specification]
#[verifier::external_body]
#[verifier::reject_recursive_types(T)]
pub struct ExSender<T>(Sender<T>);

/// Wraps `std::sync::mpsc::Sender::send`: `true` when the value was handed
/// over, `false` when the receiving end is gone. Which of the two happens
/// depends on the other thread, so nothing more is stated.
#[verifier::external_body]
fn prebuffer_send(tx: &Sender<PreBuffer>, b: PreBuffer) -> bool {
    tx.send(b).is_ok()
}

/// The radio's line to one stream's player: each song's buffers go down it
/// in turn.
pub struct RadioConn {
    tx: Sender<PreBuffer>,
    sent: Ghost<Seq<PreBuffer>>,
}

impl RadioConn {
    /// Every buffer handed down the line so far, in order.
    pub closed spec fn spec_sent(&self) -> Seq<PreBuffer> {
        self.sent@
    }

    /// A line over `tx`, nothing handed down yet.
    pub fn new(tx: Sender<PreBuffer>) -> (c: RadioConn)
        ensures
            c.spec_sent() == Seq::<PreBuffer>::empty(),
    {
        RadioConn { tx, sent: Ghost(Seq::empty()) }
    }

    /// Hands the player the next song's buffers. `Err` means the player is
    /// gone.
    pub fn replace_buffer(&mut self, buffer: PreBuffer) -> (r: Result<(), ()>)
        ensures
            final(self).spec_sent() == old(self).spec_sent().push(buffer),
    {
        self.sent = Ghost(self.sent@.push(buffer));
        if prebuffer_send(&self.tx, buffer) {
            Ok(())
        } else {
            Err(())
        }
    }
}

} // verus!
