use std::collections::VecDeque;
use vstd::prelude::*;

use crate::config::{Config, Container};
use crate::json::{member, Json, JsonObject, JsonValue, JsonValueView};
use crate::prebuffer::PreBuffer;
use crate::text::{after_last_dot, extension, str_eq};

verus! {

/// A song as submitted: its JSON blob and the path of its audio file.
pub struct NewQueueEntry {
    pub data: JsonObject,
    pub path: String,
}

/// A song in the queue, numbered in the order the queue took it.
pub struct QueueEntry {
    pub id: u64,
    pub data: JsonObject,
    pub path: String,
}

/// What a queue entry is: its number, blob and path.
pub struct EntryView {
    pub id: u64,
    pub data: Seq<(Seq<char>, JsonValueView)>,
    pub path: Seq<char>,
}

impl View for QueueEntry {
    type V = EntryView;

    open spec fn view(&self) -> EntryView {
        EntryView { id: self.id, data: self.data@, path: self.path@ }
    }
}

/// How many attempts the search for the next song makes before it falls
/// back to the configured fallback.
pub const TC_ATTEMPTS: u32 = 5;

/// What the search for the next song to transcode does next.
pub enum TcStep {
    /// Open this entry's file and transcode it as this container.
    Try(QueueEntry, String),
    /// Nothing to try this time; look again.
    Retry,
    /// Transcode the configured fallback, played as this entry.
    Fallback(QueueEntry),
}

/// A song being transcoded ahead, with one buffer per configured stream.
pub struct QueueBuffer {
    entry: QueueEntry,
    bufs: Vec<PreBuffer>,
}

/// The play queue, with the song transcoded next and the one playing now.
pub struct Queue {
    entries: VecDeque<QueueEntry>,
    next: QueueBuffer,
    np: QueueBuffer,
    counter: u64,
    last_id: u64,
    cfg: Config,
}

/// The view of a sequence of entries.
pub open spec fn entries_view(s: Seq<QueueEntry>) -> Seq<EntryView> {
    Seq::new(s.len(), |i: int| s[i]@)
}

/// The entry a queue holds before anything was taken.
pub open spec fn empty_entry() -> EntryView {
    EntryView { id: 0, data: Seq::empty(), path: Seq::empty() }
}

impl NewQueueEntry {
    /// A submitted blob is accepted when it is an object with a string
    /// member `path`; the whole object is kept as the entry's data.
    pub open spec fn accepts(json: Json, r: Option<NewQueueEntry>) -> bool {
        match json {
            Json::Object(o) => match member(o@, "path"@) {
                Some(JsonValueView::Str(p)) => r matches Some(e) && e.data@ == o@ && e.path@ == p,
                _ => r is None,
            },
            Json::Other(_) => r is None,
        }
    }

    pub fn deserialize(json: Json) -> (r: Option<NewQueueEntry>)
        ensures
            Self::accepts(json, r),
    {
        match json {
            Json::Object(o) => {
                let p = match o.get("path") {
                    Some(JsonValue::Str(p)) => Some(p.clone()),
                    _ => None,
                };
                match p {
                    Some(p) => Some(NewQueueEntry { data: o, path: p }),
                    None => None,
                }
            },
            Json::Other(_) => None,
        }
    }
}

impl QueueEntry {
    /// The entry's blob, as it was submitted.
    pub fn serialize(&self) -> (j: Json)
        ensures
            j matches Json::Object(o) && o@ == self.data@,
    {
        Json::Object(self.data.duplicate())
    }

    pub fn duplicate(&self) -> (e: QueueEntry)
        ensures
            e@ == self@,
    {
        QueueEntry { id: self.id, data: self.data.duplicate(), path: self.path.clone() }
    }

    /// Field-by-field equality.
    pub fn same(&self, other: &QueueEntry) -> (r: bool)
        ensures
            r == (self@ == other@),
    {
        self.id == other.id && self.data.same(&other.data) && str_eq(self.path.as_str(), other.path.as_str())
    }

    /// Number 0, no data, empty path.
    pub fn empty() -> (e: QueueEntry)
        ensures
            e@ == empty_entry(),
    {
        QueueEntry { id: 0, data: JsonObject::new(), path: String::new() }
    }
}

impl QueueBuffer {
    pub closed spec fn spec_entry(&self) -> EntryView {
        self.entry@
    }

    pub closed spec fn spec_bufs(&self) -> Seq<PreBuffer> {
        self.bufs@
    }

    pub fn new(entry: QueueEntry, bufs: Vec<PreBuffer>) -> (q: QueueBuffer)
        ensures
            q.spec_entry() == entry@,
            q.spec_bufs() == bufs@,
    {
        QueueBuffer { entry, bufs }
    }

    /// An empty entry and no buffers.
    pub fn empty() -> (q: QueueBuffer)
        ensures
            q.spec_entry() == empty_entry(),
            q.spec_bufs() == Seq::<PreBuffer>::empty(),
    {
        QueueBuffer { entry: QueueEntry::empty(), bufs: Vec::new() }
    }

    pub fn entry(&self) -> (e: &QueueEntry)
        ensures
            e@ == self.spec_entry(),
    {
        &self.entry
    }
}

impl Queue {
    pub closed spec fn spec_entries(&self) -> Seq<EntryView> {
        entries_view(self.entries@)
    }

    pub closed spec fn spec_next(&self) -> EntryView {
        self.next.spec_entry()
    }

    pub closed spec fn spec_next_bufs(&self) -> Seq<PreBuffer> {
        self.next.spec_bufs()
    }

    pub closed spec fn spec_np(&self) -> EntryView {
        self.np.spec_entry()
    }

    pub closed spec fn spec_np_bufs(&self) -> Seq<PreBuffer> {
        self.np.spec_bufs()
    }

    pub closed spec fn spec_last_id(&self) -> u64 {
        self.last_id
    }

    pub closed spec fn spec_counter(&self) -> u64 {
        self.counter
    }

    pub closed spec fn spec_cfg(&self) -> Config {
        self.cfg
    }

    /// Every entry in the queue was numbered by it, and no two entries share
    /// a number.
    pub closed spec fn wf(&self) -> bool {
        &&& forall|i: int| 0 <= i < self.entries@.len() ==> (#[trigger] self.entries@[i]).id <= self.last_id
        &&& forall|i: int, j: int|
            0 <= i < j < self.entries@.len() ==> (#[trigger] self.entries@[i]).id != (#[trigger] self.entries@[j]).id
    }

    /// An empty queue with nothing transcoded yet. The first song's
    /// transcode is started by the caller (see [`Queue::set_next`]).
    pub fn new(cfg: Config) -> (q: Queue)
        ensures
            q.wf(),
            q.spec_entries() == Seq::<EntryView>::empty(),
            q.spec_next() == empty_entry(),
            q.spec_np() == empty_entry(),
            q.spec_next_bufs() == Seq::<PreBuffer>::empty(),
            q.spec_np_bufs() == Seq::<PreBuffer>::empty(),
            q.spec_last_id() == 0,
            q.spec_counter() == 0,
            q.spec_cfg() == cfg,
    {
        let q = Queue {
            np: QueueBuffer::empty(),
            next: QueueBuffer::empty(),
            entries: VecDeque::new(),
            cfg,
            counter: 0,
            last_id: 0,
        };
        assert(q.spec_entries() =~= Seq::<EntryView>::empty());
        q
    }

    pub fn cfg(&self) -> (c: &Config)
        ensures
            *c == self.spec_cfg(),
    {
        &self.cfg
    }

    /// The song playing now.
    pub fn np(&self) -> (b: &QueueBuffer)
        ensures
            b.spec_entry() == self.spec_np(),
    {
        &self.np
    }

    /// The songs waiting, first to play first.
    pub fn entries(&self) -> (e: &VecDeque<QueueEntry>)
        ensures
            entries_view(e@) == self.spec_entries(),
    {
        &self.entries
    }

    /// Numbers a submitted song with the next number.
    pub fn queue_entry_from_new(&mut self, nqe: NewQueueEntry) -> (e: QueueEntry)
        requires
            old(self).spec_last_id() < u64::MAX,
            old(self).wf(),
        ensures
            final(self).wf(),
            e.id == old(self).spec_last_id() + 1,
            e.data@ == nqe.data@,
            e.path@ == nqe.path@,
            final(self).spec_last_id() == e.id,
            final(self).spec_entries() == old(self).spec_entries(),
            final(self).spec_next() == old(self).spec_next(),
            final(self).spec_np() == old(self).spec_np(),
            final(self).spec_next_bufs() == old(self).spec_next_bufs(),
            final(self).spec_np_bufs() == old(self).spec_np_bufs(),
            final(self).spec_counter() == old(self).spec_counter(),
            final(self).spec_cfg() == old(self).spec_cfg(),
    {
        self.last_id = self.last_id + 1;
        QueueEntry { id: self.last_id, data: nqe.data, path: nqe.path }
    }

    /// Adds a song at the tail. Returns whether the next transcode must be
    /// restarted: it must when the song is now the only one queued.
    pub fn push(&mut self, nqe: NewQueueEntry) -> (restart: bool)
        requires
            old(self).spec_last_id() < u64::MAX,
            old(self).wf(),
        ensures
            final(self).wf(),
            final(self).spec_last_id() == old(self).spec_last_id() + 1,
            final(self).spec_entries() == old(self).spec_entries().push(
                EntryView { id: final(self).spec_last_id(), data: nqe.data@, path: nqe.path@ },
            ),
            restart == (final(self).spec_entries().len() == 1),
            final(self).spec_next() == old(self).spec_next(),
            final(self).spec_np() == old(self).spec_np(),
            final(self).spec_next_bufs() == old(self).spec_next_bufs(),
            final(self).spec_np_bufs() == old(self).spec_np_bufs(),
            final(self).spec_counter() == old(self).spec_counter(),
            final(self).spec_cfg() == old(self).spec_cfg(),
    {
        let qe = self.queue_entry_from_new(nqe);
        let ghost e0 = self.entries@;
        self.entries.push_back(qe);
        proof {
            assert(self.spec_entries() =~= old(self).spec_entries().push(self.entries@.last()@));
            assert forall|i: int, j: int| 0 <= i < j < self.entries@.len() implies (#[trigger] self.entries@[i]).id
                != (#[trigger] self.entries@[j]).id by {
                assert(self.entries@[i] == e0[i]);
                assert(entries_view(e0)[i] == entries_view(old(self).entries@)[i]);
                assert(old(self).entries@[i].id <= old(self).last_id);
                if j < e0.len() {
                    assert(self.entries@[j] == e0[j]);
                } else {
                    assert(self.entries@[j].id == self.last_id);
                }
            }
        }
        self.entries.len() == 1
    }

    /// Adds a song at the head. The next transcode must always be restarted.
    pub fn push_head(&mut self, nqe: NewQueueEntry) -> (restart: bool)
        requires
            old(self).spec_last_id() < u64::MAX,
            old(self).wf(),
        ensures
            final(self).wf(),
            final(self).spec_last_id() == old(self).spec_last_id() + 1,
            final(self).spec_entries() == seq![
                EntryView { id: final(self).spec_last_id(), data: nqe.data@, path: nqe.path@ },
            ] + old(self).spec_entries(),
            restart,
            final(self).spec_next() == old(self).spec_next(),
            final(self).spec_np() == old(self).spec_np(),
            final(self).spec_next_bufs() == old(self).spec_next_bufs(),
            final(self).spec_np_bufs() == old(self).spec_np_bufs(),
            final(self).spec_counter() == old(self).spec_counter(),
            final(self).spec_cfg() == old(self).spec_cfg(),
    {
        let qe = self.queue_entry_from_new(nqe);
        let ghost e0 = self.entries@;
        self.entries.push_front(qe);
        proof {
            assert(self.spec_entries() =~= seq![self.entries@[0]@] + old(self).spec_entries());
            assert forall|i: int| 0 <= i < self.entries@.len() implies (#[trigger] self.entries@[i]).id
                <= self.last_id by {
                if i > 0 {
                    assert(self.entries@[i] == e0[i - 1]);
                }
            }
            assert forall|i: int, j: int| 0 <= i < j < self.entries@.len() implies (#[trigger] self.entries@[i]).id
                != (#[trigger] self.entries@[j]).id by {
                assert(self.entries@[j] == e0[j - 1]);
                assert(entries_view(e0)[j - 1] == entries_view(old(self).entries@)[j - 1]);
                assert(old(self).entries@[j - 1].id <= old(self).last_id);
                if i > 0 {
                    assert(self.entries@[i] == e0[i - 1]);
                } else {
                    assert(self.entries@[i].id == self.last_id);
                }
            }
        }
        true
    }

    /// Removes the song at the tail, if any. The next transcode must be
    /// restarted when the queue is now empty.
    pub fn pop(&mut self) -> (restart: bool)
        requires
            old(self).wf(),
        ensures
            final(self).wf(),
            final(self).spec_entries() == if old(self).spec_entries().len() == 0 {
                old(self).spec_entries()
            } else {
                old(self).spec_entries().drop_last()
            },
            restart == (final(self).spec_entries().len() == 0),
            final(self).spec_last_id() == old(self).spec_last_id(),
            final(self).spec_next() == old(self).spec_next(),
            final(self).spec_np() == old(self).spec_np(),
            final(self).spec_next_bufs() == old(self).spec_next_bufs(),
            final(self).spec_np_bufs() == old(self).spec_np_bufs(),
            final(self).spec_counter() == old(self).spec_counter(),
            final(self).spec_cfg() == old(self).spec_cfg(),
    {
        let _entry = self.entries.pop_back();
        proof {
            if old(self).entries@.len() > 0 {
                assert(self.spec_entries() =~= old(self).spec_entries().drop_last());
            }
        }
        self.entries.len() == 0
    }

    /// Removes the song at the head, if any. The next transcode must always
    /// be restarted.
    pub fn pop_head(&mut self) -> (restart: bool)
        requires
            old(self).wf(),
        ensures
            final(self).wf(),
            final(self).spec_entries() == if old(self).spec_entries().len() == 0 {
                old(self).spec_entries()
            } else {
                old(self).spec_entries().drop_first()
            },
            restart,
            final(self).spec_last_id() == old(self).spec_last_id(),
            final(self).spec_next() == old(self).spec_next(),
            final(self).spec_np() == old(self).spec_np(),
            final(self).spec_next_bufs() == old(self).spec_next_bufs(),
            final(self).spec_np_bufs() == old(self).spec_np_bufs(),
            final(self).spec_counter() == old(self).spec_counter(),
            final(self).spec_cfg() == old(self).spec_cfg(),
    {
        let _res = self.entries.pop_front();
        proof {
            if old(self).entries@.len() > 0 {
                assert(self.spec_entries() =~= old(self).spec_entries().drop_first());
                assert forall|i: int| 0 <= i < self.entries@.len() implies (#[trigger] self.entries@[i]).id
                    <= self.last_id by {
                    assert(self.entries@[i] == old(self).entries@[i + 1]);
                }
            }
        }
        true
    }

    /// Empties the queue. The next transcode must be restarted when there
    /// was anything to remove.
    pub fn clear(&mut self) -> (restart: bool)
        requires
            old(self).wf(),
        ensures
            final(self).wf(),
            final(self).spec_entries() == Seq::<EntryView>::empty(),
            restart == (old(self).spec_entries().len() != 0),
            final(self).spec_last_id() == old(self).spec_last_id(),
            final(self).spec_next() == old(self).spec_next(),
            final(self).spec_np() == old(self).spec_np(),
            final(self).spec_next_bufs() == old(self).spec_next_bufs(),
            final(self).spec_np_bufs() == old(self).spec_np_bufs(),
            final(self).spec_counter() == old(self).spec_counter(),
            final(self).spec_cfg() == old(self).spec_cfg(),
    {
        if self.entries.len() != 0 {
            self.entries.clear();
            proof {
                assert(self.spec_entries() =~= Seq::<EntryView>::empty());
            }
            true
        } else {
            proof {
                assert(self.spec_entries() =~= Seq::<EntryView>::empty());
            }
            false
        }
    }

    /// The song transcoded ahead becomes the one playing: its buffers are
    /// handed out, nothing is transcoded ahead any more, and the head of the
    /// queue is dropped when it is that song.
    pub fn get_next_tc(&mut self) -> (bufs: Vec<PreBuffer>)
        requires
            old(self).wf(),
        ensures
            final(self).wf(),
            bufs@ == old(self).spec_next_bufs(),
            final(self).spec_np() == old(self).spec_next(),
            final(self).spec_np_bufs() == Seq::<PreBuffer>::empty(),
            final(self).spec_next() == empty_entry(),
            final(self).spec_next_bufs() == Seq::<PreBuffer>::empty(),
            final(self).spec_entries() == if old(self).spec_entries().len() > 0
                && old(self).spec_entries()[0] == old(self).spec_next() {
                old(self).spec_entries().drop_first()
            } else {
                old(self).spec_entries()
            },
            final(self).spec_last_id() == old(self).spec_last_id(),
            final(self).spec_counter() == old(self).spec_counter(),
            final(self).spec_cfg() == old(self).spec_cfg(),
    {
        std::mem::swap(&mut self.next, &mut self.np);
        self.next = QueueBuffer::empty();
        let same = if self.entries.len() > 0 {
            self.entries[0].same(&self.np.entry)
        } else {
            false
        };
        if same {
            let _ = self.entries.pop_front();
            proof {
                assert(self.spec_entries() =~= old(self).spec_entries().drop_first());
                assert forall|i: int| 0 <= i < self.entries@.len() implies (#[trigger] self.entries@[i]).id
                    <= self.last_id by {
                    assert(self.entries@[i] == old(self).entries@[i + 1]);
                }
            }
        }
        let mut bufs: Vec<PreBuffer> = Vec::new();
        std::mem::swap(&mut bufs, &mut self.np.bufs);
        bufs
    }

    /// The song at the head of the queue, if any: the first choice for the
    /// next transcode.
    pub fn next_queue_buffer(&self) -> (e: Option<QueueEntry>)
        ensures
            match e {
                Some(x) => self.spec_entries().len() > 0 && x@ == self.spec_entries()[0],
                None => self.spec_entries().len() == 0,
            },
    {
        if self.entries.len() > 0 {
            Some(self.entries[0].duplicate())
        } else {
            None
        }
    }

    /// A transcode of `entry` was started with these buffers; it is the song
    /// transcoded next.
    pub fn set_next(&mut self, entry: QueueEntry, bufs: Vec<PreBuffer>)
        requires
            old(self).wf(),
        ensures
            final(self).wf(),
            final(self).spec_next() == entry@,
            final(self).spec_next_bufs() == bufs@,
            final(self).spec_entries() == old(self).spec_entries(),
            final(self).spec_np() == old(self).spec_np(),
            final(self).spec_np_bufs() == old(self).spec_np_bufs(),
            final(self).spec_last_id() == old(self).spec_last_id(),
            final(self).spec_counter() == old(self).spec_counter(),
            final(self).spec_cfg() == old(self).spec_cfg(),
    {
        self.next = QueueBuffer::new(entry, bufs);
    }

    /// Counts one more transcode started (wrapping around).
    pub fn count_transcode(&mut self)
        ensures
            final(self).spec_counter() == if old(self).spec_counter() == u64::MAX {
                0
            } else {
                old(self).spec_counter() + 1
            },
            final(self).spec_entries() == old(self).spec_entries(),
            final(self).spec_next() == old(self).spec_next(),
            final(self).spec_next_bufs() == old(self).spec_next_bufs(),
            final(self).spec_np() == old(self).spec_np(),
            final(self).spec_np_bufs() == old(self).spec_np_bufs(),
            final(self).spec_last_id() == old(self).spec_last_id(),
            final(self).spec_cfg() == old(self).spec_cfg(),
            final(self).wf() == old(self).wf(),
    {
        self.counter = self.counter.wrapping_add(1);
    }

    /// The entry played when no song could be transcoded: numbered like any
    /// other, with no data and the path `fallback`.
    pub fn fallback_entry(&mut self) -> (e: QueueEntry)
        requires
            old(self).spec_last_id() < u64::MAX,
            old(self).wf(),
        ensures
            final(self).wf(),
            e.id == old(self).spec_last_id() + 1,
            e.data@ == Seq::<(Seq<char>, JsonValueView)>::empty(),
            e.path@ == "fallback"@,
            final(self).spec_last_id() == e.id,
            final(self).spec_entries() == old(self).spec_entries(),
            final(self).spec_next() == old(self).spec_next(),
            final(self).spec_np() == old(self).spec_np(),
            final(self).spec_next_bufs() == old(self).spec_next_bufs(),
            final(self).spec_np_bufs() == old(self).spec_np_bufs(),
            final(self).spec_counter() == old(self).spec_counter(),
            final(self).spec_cfg() == old(self).spec_cfg(),
    {
        self.queue_entry_from_new(NewQueueEntry { data: JsonObject::new(), path: String::from_str("fallback") })
    }

    /// The number given to the latest entry.
    pub fn last_id(&self) -> (n: u64)
        ensures
            n == self.spec_last_id(),
    {
        self.last_id
    }

    /// The song to transcode next: the head of the queue, or else `random`,
    /// the song picked at random, numbered as a new entry.
    pub fn next_buffer(&mut self, random: Option<NewQueueEntry>) -> (e: Option<QueueEntry>)
        requires
            old(self).spec_entries().len() == 0 && random is Some ==> old(self).spec_last_id() < u64::MAX,
            old(self).wf(),
        ensures
            final(self).wf(),
            old(self).spec_entries().len() > 0 ==> {
                &&& e matches Some(x) && x@ == old(self).spec_entries()[0]
                &&& final(self).spec_last_id() == old(self).spec_last_id()
            },
            old(self).spec_entries().len() == 0 ==> match random {
                Some(n) => {
                    &&& e matches Some(x) && x@ == EntryView { id: (old(self).spec_last_id() + 1) as u64, data: n.data@, path: n.path@ }
                    &&& final(self).spec_last_id() == old(self).spec_last_id() + 1
                },
                None => e is None && final(self).spec_last_id() == old(self).spec_last_id(),
            },
            final(self).spec_entries() == old(self).spec_entries(),
            final(self).spec_next() == old(self).spec_next(),
            final(self).spec_np() == old(self).spec_np(),
            final(self).spec_next_bufs() == old(self).spec_next_bufs(),
            final(self).spec_np_bufs() == old(self).spec_np_bufs(),
            final(self).spec_counter() == old(self).spec_counter(),
            final(self).spec_cfg() == old(self).spec_cfg(),
    {
        match self.next_queue_buffer() {
            Some(e) => Some(e),
            None => match random {
                Some(n) => Some(self.queue_entry_from_new(n)),
                None => None,
            },
        }
    }

    /// One step of the search for the next song to transcode, after `tries`
    /// attempts that came to nothing: after [`TC_ATTEMPTS`] of them the
    /// fallback is played; before, the next song is tried, read as the
    /// container its path's extension names.
    pub fn tc_step(&mut self, tries: u32, random: Option<NewQueueEntry>) -> (s: TcStep)
        requires
            tries >= TC_ATTEMPTS || (old(self).spec_entries().len() == 0 && random is Some) ==> old(
                self,
            ).spec_last_id() < u64::MAX,
            old(self).wf(),
        ensures
            final(self).wf(),
            tries >= TC_ATTEMPTS ==> {
                &&& s matches TcStep::Fallback(e) && e@ == EntryView {
                    id: (old(self).spec_last_id() + 1) as u64,
                    data: Seq::empty(),
                    path: "fallback"@,
                }
                &&& final(self).spec_last_id() == old(self).spec_last_id() + 1
            },
            tries < TC_ATTEMPTS && old(self).spec_entries().len() > 0 ==> {
                &&& s matches TcStep::Try(e, ext) && e@ == old(self).spec_entries()[0] && ext@ == after_last_dot(
                    e.path@,
                )
                &&& final(self).spec_last_id() == old(self).spec_last_id()
            },
            tries < TC_ATTEMPTS && old(self).spec_entries().len() == 0 ==> match random {
                Some(n) => {
                    &&& s matches TcStep::Try(e, ext) && e@ == EntryView {
                        id: (old(self).spec_last_id() + 1) as u64,
                        data: n.data@,
                        path: n.path@,
                    } && ext@ == after_last_dot(n.path@)
                    &&& final(self).spec_last_id() == old(self).spec_last_id() + 1
                },
                None => s is Retry && final(self).spec_last_id() == old(self).spec_last_id(),
            },
            final(self).spec_entries() == old(self).spec_entries(),
            final(self).spec_next() == old(self).spec_next(),
            final(self).spec_np() == old(self).spec_np(),
            final(self).spec_next_bufs() == old(self).spec_next_bufs(),
            final(self).spec_np_bufs() == old(self).spec_np_bufs(),
            final(self).spec_counter() == old(self).spec_counter(),
            final(self).spec_cfg() == old(self).spec_cfg(),
    {
        if tries >= TC_ATTEMPTS {
            return TcStep::Fallback(self.fallback_entry());
        }
        match self.next_buffer(random) {
            Some(e) => {
                let ext = extension(e.path.as_str());
                TcStep::Try(e, ext)
            },
            None => TcStep::Retry,
        }
    }
}

} // verus!

verus! {

/// No two songs in a queue carry the same number, and every number in it
/// was given out by the queue.
pub proof fn law_queue_numbers(q: &Queue)
    requires
        q.wf(),
    ensures
        forall|i: int, j: int|
            0 <= i < j < q.spec_entries().len() ==> (#[trigger] q.spec_entries()[i]).id != (
            #[trigger] q.spec_entries()[j]).id,
        forall|i: int| 0 <= i < q.spec_entries().len() ==> (#[trigger] q.spec_entries()[i]).id <= q.spec_last_id(),
{
    assert forall|i: int, j: int| 0 <= i < j < q.spec_entries().len() implies (#[trigger] q.spec_entries()[i]).id
        != (#[trigger] q.spec_entries()[j]).id by {
        assert(q.entries@[i].id != q.entries@[j].id);
    }
    assert forall|i: int| 0 <= i < q.spec_entries().len() implies (#[trigger] q.spec_entries()[i]).id
        <= q.spec_last_id() by {
        assert(q.entries@[i].id <= q.last_id);
    }
}

} // verus!

verus! {

/// The name of the FFmpeg muxer that writes a stream's container.
pub open spec fn muxer_name_spec(c: Container) -> Seq<char> {
    match c {
        Container::Ogg => "ogg"@,
        Container::MP3 => "mp3"@,
        Container::FLAC => "flac"@,
        Container::AAC => "adts"@,
    }
}

/// The name of the FFmpeg muxer that writes a stream's container: AAC
/// goes out as ADTS, the others under their own names.
pub fn muxer_name(c: Container) -> (s: &'static str)
    ensures
        s@ == muxer_name_spec(c),
{
    match c {
        Container::Ogg => "ogg",
        Container::MP3 => "mp3",
        Container::FLAC => "flac",
        Container::AAC => "adts",
    }
}

} // verus!
