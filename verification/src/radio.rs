use vstd::prelude::*;

use crate::api::{ApiMessage, QueuePos};
use crate::queue::{EntryView, NewQueueEntry, Queue};

verus! {

/// What the radio loop does once a message from the API was applied.
pub enum AfterMessage {
    /// End the song playing now and go on to the next one.
    EndSong,
    /// Keep playing; restart the transcode of the next song when asked.
    Continue { restart_transcode: bool },
}

/// The queue's songs after `msg`, from `entries`; a new song gets the
/// number `id`.
pub open spec fn entries_after(entries: Seq<EntryView>, msg: ApiMessage, id: u64) -> Seq<EntryView> {
    match msg {
        ApiMessage::Skip => entries,
        ApiMessage::Clear => Seq::empty(),
        ApiMessage::Insert(QueuePos::Head, n) => seq![EntryView { id, data: n.data@, path: n.path@ }] + entries,
        ApiMessage::Insert(QueuePos::Tail, n) => entries.push(EntryView { id, data: n.data@, path: n.path@ }),
        ApiMessage::Remove(QueuePos::Head) => if entries.len() == 0 {
            entries
        } else {
            entries.drop_first()
        },
        ApiMessage::Remove(QueuePos::Tail) => if entries.len() == 0 {
            entries
        } else {
            entries.drop_last()
        },
    }
}

/// Whether the transcode of the next song must start over after `msg`,
/// which turned `before` into `after`.
pub open spec fn restart_after(before: Seq<EntryView>, msg: ApiMessage, after: Seq<EntryView>) -> bool {
    match msg {
        ApiMessage::Skip => false,
        ApiMessage::Clear => before.len() != 0,
        ApiMessage::Insert(QueuePos::Head, _) => true,
        ApiMessage::Insert(QueuePos::Tail, _) => after.len() == 1,
        ApiMessage::Remove(QueuePos::Head) => true,
        ApiMessage::Remove(QueuePos::Tail) => after.len() == 0,
    }
}

/// Carries out a message from the API on the queue. A skip ends the song
/// playing now and leaves the queue alone; the other messages change the
/// queue and say whether the next song's transcode must start over.
pub fn apply_message(queue: &mut Queue, msg: ApiMessage) -> (r: AfterMessage)
    requires
        old(queue).wf(),
        msg is Insert ==> old(queue).spec_last_id() < u64::MAX,
    ensures
        final(queue).wf(),
        msg is Skip <==> r is EndSong,
        final(queue).spec_entries() == entries_after(
            old(queue).spec_entries(),
            msg,
            (old(queue).spec_last_id() + 1) as u64,
        ),
        final(queue).spec_last_id() == if msg is Insert {
            old(queue).spec_last_id() + 1
        } else {
            old(queue).spec_last_id() as int
        },
        r matches AfterMessage::Continue { restart_transcode } ==> restart_transcode == restart_after(
            old(queue).spec_entries(),
            msg,
            final(queue).spec_entries(),
        ),
        final(queue).spec_next() == old(queue).spec_next(),
        final(queue).spec_np() == old(queue).spec_np(),
        final(queue).spec_next_bufs() == old(queue).spec_next_bufs(),
        final(queue).spec_np_bufs() == old(queue).spec_np_bufs(),
        final(queue).spec_counter() == old(queue).spec_counter(),
        final(queue).spec_cfg() == old(queue).spec_cfg(),
{
    match msg {
        ApiMessage::Skip => AfterMessage::EndSong,
        ApiMessage::Clear => AfterMessage::Continue { restart_transcode: queue.clear() },
        ApiMessage::Insert(QueuePos::Head, qe) => AfterMessage::Continue { restart_transcode: queue.push_head(qe) },
        ApiMessage::Insert(QueuePos::Tail, qe) => AfterMessage::Continue { restart_transcode: queue.push(qe) },
        ApiMessage::Remove(QueuePos::Head) => AfterMessage::Continue { restart_transcode: queue.pop_head() },
        ApiMessage::Remove(QueuePos::Tail) => AfterMessage::Continue { restart_transcode: queue.pop() },
    }
}

} // verus!

verus! {

/// Adding a song at the tail and then removing the song at the tail leaves
/// the queue as it was.
pub proof fn law_tail_insert_then_remove(entries: Seq<EntryView>, n: NewQueueEntry, id: u64, id2: u64)
    ensures
        entries_after(
            entries_after(entries, ApiMessage::Insert(QueuePos::Tail, n), id),
            ApiMessage::Remove(QueuePos::Tail),
            id2,
        ) == entries,
{
    let e1 = entries_after(entries, ApiMessage::Insert(QueuePos::Tail, n), id);
    assert(e1.drop_last() =~= entries);
}

/// Adding a song at the head and then removing the song at the head leaves
/// the queue as it was.
pub proof fn law_head_insert_then_remove(entries: Seq<EntryView>, n: NewQueueEntry, id: u64, id2: u64)
    ensures
        entries_after(
            entries_after(entries, ApiMessage::Insert(QueuePos::Head, n), id),
            ApiMessage::Remove(QueuePos::Head),
            id2,
        ) == entries,
{
    let e1 = entries_after(entries, ApiMessage::Insert(QueuePos::Head, n), id);
    assert(e1.drop_first() =~= entries);
}

/// A song added at the head plays next; one added at the tail plays after
/// everything already queued.
pub proof fn law_insert_position(entries: Seq<EntryView>, n: NewQueueEntry, id: u64)
    ensures
        entries_after(entries, ApiMessage::Insert(QueuePos::Head, n), id)[0] == (EntryView {
            id,
            data: n.data@,
            path: n.path@,
        }),
        entries_after(entries, ApiMessage::Insert(QueuePos::Tail, n), id).last() == (EntryView {
            id,
            data: n.data@,
            path: n.path@,
        }),
        entries_after(entries, ApiMessage::Insert(QueuePos::Tail, n), id).subrange(0, entries.len() as int)
            == entries,
{
    let t = entries_after(entries, ApiMessage::Insert(QueuePos::Tail, n), id);
    assert(t.subrange(0, entries.len() as int) =~= entries);
}

/// A skip leaves the queue alone; clearing leaves nothing queued.
pub proof fn law_skip_and_clear(entries: Seq<EntryView>, id: u64)
    ensures
        entries_after(entries, ApiMessage::Skip, id) == entries,
        entries_after(entries, ApiMessage::Clear, id).len() == 0,
{
}

} // verus!
