use vstd::prelude::*;
use std::sync::Arc;
use vstd::rwlock::{RwLock, RwLockPredicate};
use vstd::slice::slice_subrange;

verus! {

/// `x` brought back into `[0, cap)` when it went at most one lap past the end.
pub open spec fn wrap(x: int, cap: int) -> int {
    if x < cap {
        x
    } else {
        x - cap
    }
}

/// The `len` bytes of `items` starting at `start`, wrapping around the end.
pub open spec fn contents(items: Seq<u8>, start: int, len: int, cap: int) -> Seq<u8> {
    Seq::new(len as nat, |i: int| items[wrap(start + i, cap)])
}

/// What one call moved through a ring: bytes put in, or bytes taken out.
pub enum RingStep {
    Put(Seq<u8>),
    Took(Seq<u8>),
}

/// One call took the ring from `r0` to `r1` moving `st`: the capacity
/// stays; bytes put in join the back and advance the write position, bytes
/// taken come off the front and advance the read position.
pub open spec fn ring_step(r0: RingBuffer, st: RingStep, r1: RingBuffer) -> bool {
    &&& r1.wf()
    &&& r1.spec_cap() == r0.spec_cap()
    &&& match st {
        RingStep::Put(w) => {
            &&& r1@ == r0@ + w
            &&& r1.spec_rp() == r0.spec_rp()
            &&& r1.spec_wp() == wrap((r0.spec_wp() + w.len()) as int, r0.spec_cap() as int)
        },
        RingStep::Took(o) => {
            &&& r0@ == o + r1@
            &&& r1.spec_wp() == r0.spec_wp()
            &&& r1.spec_rp() == wrap((r0.spec_rp() + o.len()) as int, r0.spec_cap() as int)
        },
    }
}

/// All the bytes put in over `steps`, in order.
pub open spec fn puts(steps: Seq<RingStep>) -> Seq<u8>
    decreases steps.len(),
{
    if steps.len() == 0 {
        Seq::empty()
    } else {
        puts(steps.drop_last()) + match steps.last() {
            RingStep::Put(w) => w,
            RingStep::Took(_) => Seq::empty(),
        }
    }
}

/// All the bytes taken out over `steps`, in order.
pub open spec fn takes(steps: Seq<RingStep>) -> Seq<u8>
    decreases steps.len(),
{
    if steps.len() == 0 {
        Seq::empty()
    } else {
        takes(steps.drop_last()) + match steps.last() {
            RingStep::Took(o) => o,
            RingStep::Put(_) => Seq::empty(),
        }
    }
}

/// A ring is first in, first out over any run of calls: what was taken out,
/// followed by what is still held, is what was held at the start followed
/// by everything put in. So the length is the start's plus what went in
/// less what came out, and from an empty ring the bytes taken are the
/// first of the bytes put in, in order. Every state of the run is well
/// formed, so [`RingBuffer::lemma_positions`] places its positions.
pub proof fn law_ring_fifo(rs: Seq<RingBuffer>, steps: Seq<RingStep>)
    requires
        rs.len() == steps.len() + 1,
        rs[0].wf(),
        forall|i: int| 0 <= i < steps.len() ==> #[trigger] ring_step(rs[i], steps[i], rs[i + 1]),
    ensures
        takes(steps) + rs.last()@ == rs[0]@ + puts(steps),
        rs.last().spec_len() + takes(steps).len() == rs[0].spec_len() + puts(steps).len(),
        rs.last().spec_cap() == rs[0].spec_cap(),
        rs[0]@.len() == 0 ==> takes(steps) == puts(steps).subrange(0, takes(steps).len() as int),
        forall|i: int| 0 <= i < rs.len() ==> #[trigger] rs[i].wf(),
    decreases steps.len(),
{
    if steps.len() == 0 {
        assert(takes(steps) + rs[0]@ =~= rs[0]@ + puts(steps));
    } else {
        let k = steps.len() - 1;
        let rs0 = rs.drop_last();
        let st0 = steps.drop_last();
        assert forall|i: int| 0 <= i < st0.len() implies #[trigger] ring_step(rs0[i], st0[i], rs0[i + 1]) by {
            assert(ring_step(rs[i], steps[i], rs[i + 1]));
        }
        law_ring_fifo(rs0, st0);
        assert(ring_step(rs[k], steps[k], rs[k + 1]));
        assert(rs0.last() == rs[k]);
        let t0 = takes(st0);
        let p0 = puts(st0);
        match steps[k] {
            RingStep::Put(w) => {
                assert(takes(steps) =~= t0);
                assert(puts(steps) == p0 + w);
                assert(t0 + (rs[k]@ + w) =~= (t0 + rs[k]@) + w);
                assert(rs[0]@ + (p0 + w) =~= (rs[0]@ + p0) + w);
            },
            RingStep::Took(o) => {
                assert(puts(steps) =~= p0);
                assert(takes(steps) == t0 + o);
                assert((t0 + o) + rs[k + 1]@ =~= t0 + (o + rs[k + 1]@));
            },
        }
        rs[0].lemma_len();
        rs.last().lemma_len();
        if rs[0]@.len() == 0 {
            let t = takes(steps);
            assert(rs[0]@ + puts(steps) =~= puts(steps));
            assert(t =~= (t + rs.last()@).subrange(0, t.len() as int));
        }
        assert forall|i: int| 0 <= i < rs.len() implies #[trigger] rs[i].wf() by {
            if i < rs.len() - 1 {
                assert(rs0[i].wf());
            }
        }
    }
}

/// A fixed-capacity byte FIFO stored in a circular array.
///
/// The bytes held are `items[read_pos]`, `items[read_pos + 1]`, ... (wrapping
/// around the end of `items`), `len` of them; new bytes go in at `write_pos`.
pub struct RingBuffer {
    cap: usize,
    items: Vec<u8>,
    write_pos: usize,
    read_pos: usize,
    len: usize,
}

impl View for RingBuffer {
    type V = Seq<u8>;

    /// The bytes held, oldest first.
    closed spec fn view(&self) -> Seq<u8> {
        contents(self.items@, self.read_pos as int, self.len as int, self.cap as int)
    }
}

impl RingBuffer {
    pub closed spec fn spec_cap(&self) -> nat {
        self.cap as nat
    }

    pub closed spec fn spec_len(&self) -> nat {
        self.len as nat
    }

    pub closed spec fn spec_items(&self) -> Seq<u8> {
        self.items@
    }

    pub closed spec fn spec_rp(&self) -> nat {
        self.read_pos as nat
    }

    pub closed spec fn spec_wp(&self) -> nat {
        self.write_pos as nat
    }

    /// The positions agree with the length and stay inside the array.
    pub closed spec fn wf(&self) -> bool {
        &&& self.items@.len() == self.cap
        &&& self.len <= self.cap
        &&& (self.cap == 0 ==> self.read_pos == 0)
        &&& (self.cap > 0 ==> self.read_pos < self.cap && self.write_pos < self.cap)
        &&& self.write_pos == wrap(self.read_pos + self.len, self.cap as int)
    }

    /// The length of the contents is the stored length, at most the capacity.
    pub proof fn lemma_len(&self)
        requires
            self.wf(),
        ensures
            self@.len() == self.spec_len(),
            self.spec_len() <= self.spec_cap(),
    {
    }

    /// Where the positions stand: inside the array, the write position
    /// `len` bytes (wrapping around) past the read position.
    pub proof fn lemma_positions(&self)
        requires
            self.wf(),
        ensures
            self.spec_items().len() == self.spec_cap(),
            self.spec_len() <= self.spec_cap(),
            self.spec_cap() > 0 ==> self.spec_rp() < self.spec_cap() && self.spec_wp() < self.spec_cap(),
            self.spec_cap() == 0 ==> self.spec_rp() == 0 && self.spec_wp() == 0,
            self.spec_wp() == wrap((self.spec_rp() + self.spec_len()) as int, self.spec_cap() as int),
    {
    }

    /// An empty buffer able to hold `size` bytes.
    pub fn new(size: usize) -> (rb: RingBuffer)
        ensures
            rb.wf(),
            rb@ == Seq::<u8>::empty(),
            rb.spec_cap() == size,
            rb.spec_rp() == 0,
            rb.spec_wp() == 0,
    {
        let mut items: Vec<u8> = Vec::new();
        while items.len() < size
            invariant
                items@.len() <= size,
            decreases size - items.len(),
        {
            items.push(0u8);
        }
        let rb = RingBuffer { cap: size, items, write_pos: 0, read_pos: 0, len: 0 };
        assert(rb@ =~= Seq::<u8>::empty());
        rb
    }

    /// Copies out up to `buf.len()` of the oldest bytes into the front of
    /// `buf` and removes them; returns how many were moved.
    pub fn try_read(&mut self, buf: &mut [u8]) -> (amnt: usize)
        requires
            old(self).wf(),
        ensures
            final(self).wf(),
            final(self).spec_cap() == old(self).spec_cap(),
            amnt == if old(buf)@.len() > old(self)@.len() { old(self)@.len() } else { old(buf)@.len() },
            final(buf)@.len() == old(buf)@.len(),
            final(buf)@.subrange(0, amnt as int) == old(self)@.subrange(0, amnt as int),
            final(buf)@.subrange(amnt as int, old(buf)@.len() as int) == old(buf)@.subrange(
                amnt as int,
                old(buf)@.len() as int,
            ),
            final(self)@ == old(self)@.subrange(amnt as int, old(self)@.len() as int),
            final(self).spec_wp() == old(self).spec_wp(),
            final(self).spec_rp() == wrap((old(self).spec_rp() + amnt) as int, old(self).spec_cap() as int),
            final(self).spec_len() == old(self).spec_len() - amnt,
            final(self).spec_items() == old(self).spec_items(),
            ring_step(*old(self), RingStep::Took(final(buf)@.subrange(0, amnt as int)), *final(self)),
    {
        let l = self.len();
        let amnt = if buf.len() > l {
            self.do_read(buf, l)
        } else {
            let n = buf.len();
            self.do_read(buf, n)
        };
        let ghost mid = *self;
        self.set_len(self.len() - amnt);
        proof {
            assert(self@ =~= old(self)@.subrange(amnt as int, old(self)@.len() as int)) by {
                assert forall|i: int| 0 <= i < self@.len() implies self@[i] == old(self)@.subrange(
                    amnt as int,
                    old(self)@.len() as int,
                )[i] by {
                    let c = self.cap as int;
                    let rp0 = old(self).read_pos as int;
                    if c > 0 {
                        assert(wrap(wrap(rp0 + amnt, c) + i, c) == wrap(rp0 + amnt + i, c));
                    }
                }
            }
            assert(old(self)@ =~= buf@.subrange(0, amnt as int) + self@);
        }
        amnt
    }

    /// Copies the `n` oldest bytes into `buf[0..n]` and advances the read position.
    fn do_read(&mut self, buf: &mut [u8], n: usize) -> (pos: usize)
        requires
            old(self).wf(),
            n <= old(buf)@.len(),
            n <= old(self).len,
        ensures
            pos == n,
            final(self).cap == old(self).cap,
            final(self).items == old(self).items,
            final(self).len == old(self).len,
            final(self).write_pos == old(self).write_pos,
            final(self).read_pos == wrap(old(self).read_pos + n, old(self).cap as int),
            old(self).cap > 0 ==> final(self).read_pos < old(self).cap,
            old(self).cap == 0 ==> final(self).read_pos == 0,
            final(buf)@.len() == old(buf)@.len(),
            forall|i: int| 0 <= i < n ==> final(buf)@[i] == old(self)@[i],
            forall|i: int| n <= i < old(buf)@.len() ==> final(buf)@[i] == old(buf)@[i],
    {
        let mut pos: usize = 0;
        let bl = n;
        let cap = self.items.len();
        let mut rp = self.rp();
        let wp = self.wp();
        let ghost view0 = self@;

        if rp >= wp {
            if bl < cap - rp {
                copy_out(&self.items, rp, buf, 0, bl);
                self.set_rp(rp + bl);
                return bl;
            } else {
                let read = cap - rp;
                copy_out(&self.items, rp, buf, pos, read);
                pos = pos + read;
                self.set_rp(0);
                rp = 0;
            }
        }
        let left = bl - pos;

        if rp < wp {
            if left < wp - rp {
                copy_out(&self.items, rp, buf, pos, left);
                self.set_rp(rp + left);
                return bl;
            } else {
                copy_out(&self.items, rp, buf, pos, wp - rp);
                pos = pos + (wp - rp);
                self.set_rp(wp);
            }
        }
        return pos;
    }

    /// Appends as many bytes of `buf` as there is room for, in order;
    /// returns how many were taken.
    pub fn try_write(&mut self, buf: &[u8]) -> (amnt: usize)
        requires
            old(self).wf(),
        ensures
            final(self).wf(),
            final(self).spec_cap() == old(self).spec_cap(),
            amnt == if buf@.len() > old(self).spec_cap() - old(self)@.len() {
                old(self).spec_cap() - old(self)@.len()
            } else {
                buf@.len() as int
            },
            final(self)@ == old(self)@ + buf@.subrange(0, amnt as int),
            final(self).spec_rp() == old(self).spec_rp(),
            final(self).spec_wp() == wrap((old(self).spec_wp() + amnt) as int, old(self).spec_cap() as int),
            final(self).spec_len() == old(self).spec_len() + amnt,
            ring_step(*old(self), RingStep::Put(buf@.subrange(0, amnt as int)), *final(self)),
    {
        let mr = self.cap - self.len();
        let amnt = if buf.len() > mr {
            self.do_write(&buf[0..mr])
        } else {
            self.do_write(buf)
        };
        let ghost src = if buf.len() > mr { buf@.subrange(0, mr as int) } else { buf@ };
        self.set_len(self.len() + amnt);
        proof {
            assert(src =~= buf@.subrange(0, amnt as int));
            assert(self@ =~= old(self)@ + buf@.subrange(0, amnt as int)) by {
                let c = self.cap as int;
                let rp0 = old(self).read_pos as int;
                let l0 = old(self).len as int;
                assert forall|i: int| 0 <= i < self@.len() implies self@[i] == (old(self)@
                    + buf@.subrange(0, amnt as int))[i] by {
                    if i >= l0 && c > 0 {
                        assert(wrap(wrap(rp0 + l0, c) + (i - l0), c) == wrap(rp0 + i, c));
                    }
                }
            }
        }
        amnt
    }

    /// Stores all of `buf` at the write position, wrapping around the end.
    fn do_write(&mut self, buf: &[u8]) -> (pos: usize)
        requires
            old(self).wf(),
            buf@.len() <= old(self).cap - old(self).len,
        ensures
            pos == buf@.len(),
            final(self).cap == old(self).cap,
            final(self).len == old(self).len,
            final(self).read_pos == old(self).read_pos,
            final(self).items@.len() == old(self).items@.len(),
            final(self).write_pos == wrap(old(self).write_pos + buf@.len(), old(self).cap as int),
            old(self).cap > 0 ==> final(self).write_pos < old(self).cap,
            contents(
                final(self).items@,
                old(self).read_pos as int,
                old(self).len + buf@.len(),
                old(self).cap as int,
            ) == old(self)@ + buf@,
            forall|j: int|
                0 <= j < old(self).cap && (if j >= old(self).write_pos {
                    j - old(self).write_pos
                } else {
                    j + old(self).cap - old(self).write_pos
                }) >= buf@.len() ==> #[trigger] final(self).items@[j] == old(self).items@[j],
    {
        let mut pos: usize = 0;
        let bl = buf.len();
        let cap = self.items.len();
        let rp = self.rp();
        let mut wp = self.wp();

        if wp >= rp {
            if bl < cap - wp {
                copy_in(&mut self.items, wp, buf, 0, bl);
                self.set_wp(wp + bl);
                return bl;
            } else {
                copy_in(&mut self.items, wp, buf, 0, cap - wp);
                pos = pos + (cap - wp);
                self.set_wp(0);
                wp = 0;
            }
        }
        let left = bl - pos;

        if wp < rp {
            if left < rp - wp {
                copy_in(&mut self.items, wp, buf, pos, left);
                self.set_wp(wp + left);
                return bl;
            } else {
                copy_in(&mut self.items, wp, buf, pos, rp - wp);
                self.set_wp(rp);
                pos = pos + (rp - wp);
            }
        }
        return pos;
    }

    /// The position of the oldest byte held.
    pub fn rp(&self) -> (r: usize)
        ensures
            r == self.spec_rp(),
    {
        self.read_pos
    }

    fn set_rp(&mut self, rp: usize)
        ensures
            final(self).read_pos == rp,
            final(self).write_pos == old(self).write_pos,
            final(self).len == old(self).len,
            final(self).cap == old(self).cap,
            final(self).items == old(self).items,
    {
        self.read_pos = rp;
    }

    /// The position where the next byte written goes.
    pub fn wp(&self) -> (r: usize)
        ensures
            r == self.spec_wp(),
    {
        self.write_pos
    }

    fn set_wp(&mut self, wp: usize)
        ensures
            final(self).write_pos == wp,
            final(self).read_pos == old(self).read_pos,
            final(self).len == old(self).len,
            final(self).cap == old(self).cap,
            final(self).items == old(self).items,
    {
        self.write_pos = wp;
    }

    /// How many bytes are held.
    pub fn len(&self) -> (r: usize)
        ensures
            r == self.spec_len(),
    {
        self.len
    }

    /// Overwrites the stored length and nothing else.
    pub fn set_len(&mut self, len: usize)
        ensures
            final(self).spec_len() == len,
            final(self).spec_rp() == old(self).spec_rp(),
            final(self).spec_wp() == old(self).spec_wp(),
            final(self).spec_cap() == old(self).spec_cap(),
            final(self).spec_items() == old(self).spec_items(),
    {
        self.len = len;
    }

    /// How many bytes fit.
    pub fn cap(&self) -> (r: usize)
        ensures
            r == self.spec_cap(),
    {
        self.cap
    }
}

/// Copies `items[src..src + n]` into `dst[at..at + n]`.
fn copy_out(items: &Vec<u8>, src: usize, dst: &mut [u8], at: usize, n: usize)
    requires
        src + n <= items@.len(),
        at + n <= old(dst)@.len(),
    ensures
        final(dst)@.len() == old(dst)@.len(),
        forall|i: int| 0 <= i < at ==> final(dst)@[i] == old(dst)@[i],
        forall|i: int| at <= i < at + n ==> final(dst)@[i] == items@[src + i - at],
        forall|i: int| at + n <= i < old(dst)@.len() ==> final(dst)@[i] == old(dst)@[i],
{
    let mut k: usize = 0;
    while k < n
        invariant
            k <= n,
            src + n <= items.len(),
            at + n <= dst.len(),
            dst@.len() == old(dst)@.len(),
            forall|i: int| 0 <= i < at ==> dst@[i] == old(dst)@[i],
            forall|i: int| at <= i < at + k ==> dst@[i] == items@[src + i - at],
            forall|i: int| at + k <= i < old(dst)@.len() ==> dst@[i] == old(dst)@[i],
        decreases n - k,
    {
        dst[at + k] = items[src + k];
        k = k + 1;
    }
}

/// Copies `buf[from..from + n]` into `items[at..at + n]`.
fn copy_in(items: &mut Vec<u8>, at: usize, buf: &[u8], from: usize, n: usize)
    requires
        at + n <= old(items)@.len(),
        from + n <= buf@.len(),
    ensures
        final(items)@.len() == old(items)@.len(),
        forall|i: int| 0 <= i < at ==> final(items)@[i] == old(items)@[i],
        forall|i: int| at <= i < at + n ==> final(items)@[i] == buf@[from + i - at],
        forall|i: int| at + n <= i < old(items)@.len() ==> final(items)@[i] == old(items)@[i],
{
    let mut k: usize = 0;
    while k < n
        invariant
            k <= n,
            at + n <= items.len(),
            from + n <= buf.len(),
            items@.len() == old(items)@.len(),
            forall|i: int| 0 <= i < at ==> items@[i] == old(items)@[i],
            forall|i: int| at <= i < at + k ==> items@[i] == buf@[from + i - at],
            forall|i: int| at + k <= i < old(items)@.len() ==> items@[i] == old(items)@[i],
        decreases n - k,
    {
        items.set(at + k, buf[from + k]);
        k = k + 1;
    }
}

} // verus!

verus! {

/// Where a blocking read or write stands after one step.
pub enum Step {
    /// Nothing could move; wait a moment and step again.
    Wait,
    /// This many bytes of the buffer are now done; step again.
    Moved(usize),
    /// The call is over, with this many bytes done.
    Finished(usize),
}

/// Everything a writer and its reader share: the byte ring, the header
/// captured while the writer is in header mode, and the mode flags.
///
/// A fresh state is out of header mode: its writes go to the ring from the
/// first byte, which is what the ring's own tests pin down. No operation
/// here turns header mode on; the lock of a pair made by [`new`] keeps its
/// state out of header mode with an empty header store (see [`RbInv`]).
/// The header branch of [`RbState::write`] keeps its contract for a state
/// in header mode all the same.
pub struct RbState {
    rb: RingBuffer,
    header: Vec<u8>,
    writing_header: bool,
    writing_trailer: bool,
    canceled: bool,
}

impl RbState {
    pub closed spec fn ring(&self) -> RingBuffer {
        self.rb
    }

    pub closed spec fn spec_header(&self) -> Seq<u8> {
        self.header@
    }

    pub closed spec fn spec_writing_header(&self) -> bool {
        self.writing_header
    }

    pub closed spec fn spec_writing_trailer(&self) -> bool {
        self.writing_trailer
    }

    pub closed spec fn spec_canceled(&self) -> bool {
        self.canceled
    }

    pub open spec fn wf(&self) -> bool {
        self.ring().wf()
    }

    /// A fresh state around an empty ring of `size` bytes, not canceled.
    pub fn new(size: usize) -> (s: RbState)
        ensures
            s.wf(),
            s.ring()@ == Seq::<u8>::empty(),
            s.ring().spec_cap() == size,
            s.ring().spec_rp() == 0,
            s.ring().spec_wp() == 0,
            s.spec_header() == Seq::<u8>::empty(),
            !s.spec_writing_header(),
            !s.spec_writing_trailer(),
            !s.spec_canceled(),
    {
        RbState {
            rb: RingBuffer::new(size),
            header: Vec::new(),
            writing_header: false,
            writing_trailer: false,
            canceled: false,
        }
    }

    /// Canceled and nothing left to read.
    pub fn done(&self) -> (r: bool)
        requires
            self.wf(),
        ensures
            r == (self.spec_canceled() && self.ring()@.len() == 0),
    {
        proof {
            self.rb.lemma_len();
        }
        self.canceled && self.rb.len() == 0
    }

    pub fn stopped(&self) -> (r: bool)
        ensures
            r == self.spec_canceled(),
    {
        self.canceled
    }

    /// Hands out the captured header and leaves it empty. (Out of header
    /// mode nothing is captured; see [`RbState`].)
    pub fn take_header(&mut self) -> (h: Vec<u8>)
        ensures
            h@ == old(self).spec_header(),
            final(self).spec_header() == Seq::<u8>::empty(),
            final(self).ring() == old(self).ring(),
            final(self).spec_writing_header() == old(self).spec_writing_header(),
            final(self).spec_writing_trailer() == old(self).spec_writing_trailer(),
            final(self).spec_canceled() == old(self).spec_canceled(),
    {
        let mut h: Vec<u8> = Vec::new();
        std::mem::swap(&mut h, &mut self.header);
        h
    }

    /// What a write of `buf` returns from this state (see [`RbState::write`]).
    pub open spec fn write_result(self, buf: Seq<u8>) -> Result<usize, ()> {
        let free = self.ring().spec_cap() - self.ring()@.len();
        let n = if buf.len() > free { free } else { buf.len() as int };
        if self.spec_canceled() {
            if n == 0 {
                Err(())
            } else {
                Ok(n as usize)
            }
        } else if self.spec_writing_header() {
            Ok(buf.len() as usize)
        } else {
            Ok(n as usize)
        }
    }

    /// What a read from this state does to a buffer holding `b0`: it then
    /// holds `b1`, and `r` is returned (see [`RbState::read`]).
    pub open spec fn read_outcome(self, b0: Seq<u8>, b1: Seq<u8>, r: Result<usize, ()>) -> bool {
        let held = self.ring()@;
        let n = if b0.len() > held.len() { held.len() as int } else { b0.len() as int };
        &&& b1.len() == b0.len()
        &&& b1.subrange(0, n) == held.subrange(0, n)
        &&& b1.subrange(n, b0.len() as int) == b0.subrange(n, b0.len() as int)
        &&& r == if self.spec_canceled() && n == 0 {
            Err::<usize, ()>(())
        } else {
            Ok(n as usize)
        }
    }

    /// One write: once canceled, whatever still fits goes into the ring and
    /// nothing fitting is an error; in header mode all of `buf` goes to the
    /// header; otherwise as much as fits goes into the ring.
    pub fn write(&mut self, buf: &[u8]) -> (r: Result<usize, ()>)
        requires
            old(self).wf(),
        ensures
            final(self).wf(),
            final(self).spec_writing_header() == old(self).spec_writing_header(),
            final(self).spec_writing_trailer() == old(self).spec_writing_trailer(),
            final(self).spec_canceled() == old(self).spec_canceled(),
            final(self).ring().spec_cap() == old(self).ring().spec_cap(),
            r == old(self).write_result(buf@),
            ({
                let free = old(self).ring().spec_cap() - old(self).ring()@.len();
                let n = if buf@.len() > free { free } else { buf@.len() as int };
                if old(self).spec_canceled() {
                    &&& final(self).ring()@ == old(self).ring()@ + buf@.subrange(0, n)
                    &&& final(self).spec_header() == old(self).spec_header()
                    &&& r == if n == 0 { Err::<usize, ()>(()) } else { Ok(n as usize) }
                } else if old(self).spec_writing_header() {
                    &&& final(self).ring() == old(self).ring()
                    &&& final(self).spec_header() == old(self).spec_header() + buf@
                    &&& r == Ok::<usize, ()>(buf@.len() as usize)
                } else {
                    &&& final(self).ring()@ == old(self).ring()@ + buf@.subrange(0, n)
                    &&& final(self).spec_header() == old(self).spec_header()
                    &&& r == Ok::<usize, ()>(n as usize)
                }
            }),
    {
        proof {
            self.rb.lemma_len();
        }
        if self.canceled {
            let a = self.rb.try_write(buf);
            if a == 0 {
                Err(())
            } else {
                Ok(a)
            }
        } else if self.writing_header {
            let mut k: usize = 0;
            let ghost h0 = self.header@;
            while k < buf.len()
                invariant
                    k <= buf@.len(),
                    self.header@ == h0 + buf@.subrange(0, k as int),
                    self.rb == old(self).rb,
                    self.canceled == old(self).canceled,
                    self.writing_header == old(self).writing_header,
                    self.writing_trailer == old(self).writing_trailer,
                decreases buf@.len() - k,
            {
                self.header.push(buf[k]);
                k = k + 1;
                proof {
                    assert(buf@.subrange(0, k as int) =~= buf@.subrange(0, k - 1) + seq![buf@[k - 1]]);
                }
            }
            proof {
                assert(buf@.subrange(0, buf@.len() as int) =~= buf@);
            }
            Ok(buf.len())
        } else {
            Ok(self.rb.try_write(buf))
        }
    }

    /// One read: once canceled, whatever is held is read and nothing held is
    /// an error; otherwise as much as is held, up to `buf.len()`, is read.
    pub fn read(&mut self, buf: &mut [u8]) -> (r: Result<usize, ()>)
        requires
            old(self).wf(),
        ensures
            final(self).wf(),
            final(self).spec_writing_header() == old(self).spec_writing_header(),
            final(self).spec_writing_trailer() == old(self).spec_writing_trailer(),
            final(self).spec_canceled() == old(self).spec_canceled(),
            final(self).spec_header() == old(self).spec_header(),
            final(self).ring().spec_cap() == old(self).ring().spec_cap(),
            final(buf)@.len() == old(buf)@.len(),
            old(self).read_outcome(old(buf)@, final(buf)@, r),
            ({
                let held = old(self).ring()@;
                let n = if old(buf)@.len() > held.len() { held.len() as int } else { old(buf)@.len() as int };
                &&& final(buf)@.subrange(0, n) == held.subrange(0, n)
                &&& final(buf)@.subrange(n, old(buf)@.len() as int) == old(buf)@.subrange(n, old(buf)@.len() as int)
                &&& final(self).ring()@ == held.subrange(n, held.len() as int)
                &&& r == if old(self).spec_canceled() && n == 0 {
                    Err::<usize, ()>(())
                } else {
                    Ok(n as usize)
                }
            }),
    {
        let a = self.rb.try_read(buf);
        if self.canceled && a == 0 {
            Err(())
        } else {
            Ok(a)
        }
    }

    /// What one step of a blocking read from this state does, with `pos`
    /// bytes of a buffer holding `b0` already filled: the buffer then holds
    /// `b1` and `r` is returned (see [`RbState::read_step`]).
    pub open spec fn read_step_outcome(self, pos: int, b0: Seq<u8>, b1: Seq<u8>, r: Step) -> bool {
        let held = self.ring()@;
        let want = b0.len() - pos;
        let n = if want > held.len() { held.len() as int } else { want };
        if pos >= b0.len() {
            r == Step::Finished(pos as usize) && b1 == b0
        } else if held.len() == 0 {
            &&& b1 == b0
            &&& r == if self.spec_canceled() { Step::Finished(pos as usize) } else { Step::Wait }
        } else {
            &&& b1.len() == b0.len()
            &&& b1.subrange(0, pos) == b0.subrange(0, pos)
            &&& b1.subrange(pos, pos + n) == held.subrange(0, n)
            &&& b1.subrange(pos + n, b0.len() as int) == b0.subrange(pos + n, b0.len() as int)
            &&& r == Step::Moved((pos + n) as usize)
        }
    }

    /// One step of a blocking read that has filled `buf[..pos]`: a full
    /// buffer is finished; with nothing held, the read is finished if the
    /// pair was canceled and must wait otherwise; else as much as is held
    /// goes to `buf[pos..]`, oldest first.
    pub fn read_step(&mut self, buf: &mut [u8], pos: usize) -> (r: Step)
        requires
            old(self).wf(),
            pos <= old(buf)@.len(),
        ensures
            final(self).wf(),
            final(self).spec_writing_header() == old(self).spec_writing_header(),
            final(self).spec_writing_trailer() == old(self).spec_writing_trailer(),
            final(self).spec_canceled() == old(self).spec_canceled(),
            final(self).spec_header() == old(self).spec_header(),
            final(self).ring().spec_cap() == old(self).ring().spec_cap(),
            final(buf)@.len() == old(buf)@.len(),
            old(self).read_step_outcome(pos as int, old(buf)@, final(buf)@, r),
            final(self).ring()@ == old(self).ring()@.subrange(
                (match r {
                    Step::Moved(p) => p - pos,
                    _ => 0,
                }) as int,
                old(self).ring()@.len() as int,
            ),
    {
        proof {
            self.rb.lemma_len();
            assert(old(self).ring()@.subrange(0, old(self).ring()@.len() as int) =~= old(self).ring()@);
        }
        if pos == buf.len() {
            return Step::Finished(pos);
        }
        if self.rb.len() == 0 {
            return if self.canceled {
                Step::Finished(pos)
            } else {
                Step::Wait
            };
        }
        let want: usize = buf.len() - pos;
        let mut tmp: Vec<u8> = vec![0u8; want];
        let n = self.rb.try_read(tmp.as_mut_slice());
        let ghost b0 = buf@;
        copy_out(&tmp, 0, buf, pos, n);
        proof {
            let held = old(self).ring()@;
            assert(buf@.subrange(0, pos as int) =~= b0.subrange(0, pos as int));
            assert(buf@.subrange(pos as int, pos + n) =~= held.subrange(0, n as int)) by {
                assert forall|i: int| 0 <= i < n implies buf@.subrange(pos as int, pos + n)[i] == held.subrange(
                    0,
                    n as int,
                )[i] by {
                    assert(tmp@.subrange(0, n as int)[i] == tmp@[i]);
                }
            }
            assert(buf@.subrange(pos + n, b0.len() as int) =~= b0.subrange(pos + n, b0.len() as int));
        }
        Step::Moved(pos + n)
    }

    /// What one step of a blocking write of `buf` from this state returns,
    /// with `buf[..pos]` already written (see [`RbState::write_step`]).
    pub open spec fn write_step_result(self, pos: int, buf: Seq<u8>) -> Step {
        let held = self.ring()@;
        let free = self.ring().spec_cap() - held.len();
        let want = buf.len() - pos;
        let n = if want > free { free } else { want };
        if pos >= buf.len() {
            Step::Finished(pos as usize)
        } else if free <= 0 {
            if self.spec_canceled() && held.len() == 0 {
                Step::Finished(pos as usize)
            } else {
                Step::Wait
            }
        } else {
            Step::Moved((pos + n) as usize)
        }
    }

    /// One step of a blocking write that has written `buf[..pos]`: all of it
    /// written is finished; with the ring full, the write is finished if the
    /// pair was canceled and the ring drained, and must wait otherwise; else
    /// as much of `buf[pos..]` as fits goes into the ring.
    pub fn write_step(&mut self, buf: &[u8], pos: usize) -> (r: Step)
        requires
            old(self).wf(),
            pos <= buf@.len(),
        ensures
            final(self).wf(),
            final(self).spec_writing_header() == old(self).spec_writing_header(),
            final(self).spec_writing_trailer() == old(self).spec_writing_trailer(),
            final(self).spec_canceled() == old(self).spec_canceled(),
            final(self).spec_header() == old(self).spec_header(),
            final(self).ring().spec_cap() == old(self).ring().spec_cap(),
            r == old(self).write_step_result(pos as int, buf@),
            final(self).ring()@ == old(self).ring()@ + buf@.subrange(
                pos as int,
                match r {
                    Step::Moved(p) => p as int,
                    _ => pos as int,
                },
            ),
    {
        proof {
            self.rb.lemma_len();
            assert(buf@.subrange(pos as int, pos as int) =~= Seq::<u8>::empty());
            assert(old(self).ring()@ + Seq::<u8>::empty() =~= old(self).ring()@);
        }
        if pos == buf.len() {
            return Step::Finished(pos);
        }
        if self.rb.len() == self.rb.cap() {
            return if self.canceled && self.rb.len() == 0 {
                Step::Finished(pos)
            } else {
                Step::Wait
            };
        }
        let rest = slice_subrange(buf, pos, buf.len());
        let n = self.rb.try_write(rest);
        proof {
            assert(rest@.subrange(0, n as int) =~= buf@.subrange(pos as int, pos + n));
        }
        Step::Moved(pos + n)
    }

    /// The writer has finished the header; later writes go to the ring. On a
    /// state already out of header mode this changes nothing.
    pub fn header_written(&mut self)
        ensures
            !final(self).spec_writing_header(),
            final(self).ring() == old(self).ring(),
            final(self).spec_header() == old(self).spec_header(),
            final(self).spec_writing_trailer() == old(self).spec_writing_trailer(),
            final(self).spec_canceled() == old(self).spec_canceled(),
    {
        self.writing_header = false;
    }

    /// The writer has finished the body; what follows is the trailer.
    pub fn body_written(&mut self)
        ensures
            final(self).spec_writing_trailer(),
            final(self).ring() == old(self).ring(),
            final(self).spec_header() == old(self).spec_header(),
            final(self).spec_writing_header() == old(self).spec_writing_header(),
            final(self).spec_canceled() == old(self).spec_canceled(),
    {
        self.writing_trailer = true;
    }

    /// Marks the pair as canceled.
    pub fn cancel(&mut self)
        ensures
            final(self).spec_canceled(),
            final(self).ring() == old(self).ring(),
            final(self).spec_header() == old(self).spec_header(),
            final(self).spec_writing_header() == old(self).spec_writing_header(),
            final(self).spec_writing_trailer() == old(self).spec_writing_trailer(),
    {
        self.canceled = true;
    }
}

} // verus!

verus! {

/// The lock keeps the shared state well formed, around a ring of one
/// capacity, and out of header mode with nothing in the header store.
pub struct RbInv {
    pub cap: usize,
}

impl RwLockPredicate<RbState> for RbInv {
    open spec fn inv(self, v: RbState) -> bool {
        &&& v.wf()
        &&& v.ring().spec_cap() == self.cap
        &&& !v.spec_writing_header()
        &&& v.spec_header().len() == 0
    }
}

/// The reading end of a ring made by [`new`].
pub struct RBReader {
    shared: Arc<RwLock<RbState, RbInv>>,
}

/// The writing end of a ring made by [`new`].
pub struct RBWriter {
    shared: Arc<RwLock<RbState, RbInv>>,
}

/// Wraps `Arc::clone`: another pointer to the same value, as its
/// documentation says.
#[verifier::external_body]
fn share<T>(a: &Arc<T>) -> (r: Arc<T>)
    ensures
        r == *a,
{
    Arc::clone(a)
}

/// Both ends look at the state held under one lock. What a call returns is
/// what some state the lock may hold gives: the other end may change the
/// state at any moment.
fn shared_done(shared: &Arc<RwLock<RbState, RbInv>>) -> (r: bool)
    ensures
        exists|s: RbState| #[trigger] (**shared).inv(s) && r == (s.spec_canceled() && s.ring()@.len() == 0),
{
    let handle = shared.acquire_read();
    let r = handle.borrow().done();
    proof {
        assert((**shared).inv(handle.view()));
    }
    handle.release_read();
    r
}

fn shared_stopped(shared: &Arc<RwLock<RbState, RbInv>>) -> (r: bool)
    ensures
        exists|s: RbState| #[trigger] (**shared).inv(s) && r == s.spec_canceled(),
{
    let handle = shared.acquire_read();
    let r = handle.borrow().stopped();
    proof {
        assert((**shared).inv(handle.view()));
    }
    handle.release_read();
    r
}

fn shared_cancel(shared: &Arc<RwLock<RbState, RbInv>>) {
    let (mut st, handle) = shared.acquire_write();
    st.cancel();
    handle.release_write(st);
}

/// A writer and a reader over one ring of `size` bytes.
pub fn new(size: usize) -> (r: (RBWriter, RBReader))
    ensures
        r.0.cap() == size,
        r.1.cap() == size,
        r.1.same_ring(&r.0),
{
    let st = RbState::new(size);
    let shared = Arc::new(RwLock::new(st, Ghost(RbInv { cap: size })));
    (RBWriter { shared: share(&shared) }, RBReader { shared })
}

impl RBReader {
    /// The capacity of the ring.
    pub closed spec fn cap(&self) -> nat {
        (*self.shared).pred().cap as nat
    }

    /// Whether the shared lock may hold `s`: a well-formed state around a
    /// ring of this capacity.
    pub closed spec fn may_hold(&self, s: RbState) -> bool {
        (*self.shared).inv(s)
    }

    /// Whether this reader and `w` share one ring.
    pub closed spec fn same_ring(&self, w: &RBWriter) -> bool {
        *self.shared == *w.shared
    }

    /// Canceled and drained, as seen at the moment of the call.
    pub fn done(&self) -> (r: bool)
        ensures
            exists|s: RbState| #[trigger] self.may_hold(s) && r == (s.spec_canceled() && s.ring()@.len() == 0),
    {
        let r = shared_done(&self.shared);
        proof {
            let s = choose|s: RbState| #[trigger] (*self.shared).inv(s) && r == (s.spec_canceled() && s.ring()@.len() == 0);
            assert(self.may_hold(s));
        }
        r
    }

    /// Canceled, as seen at the moment of the call.
    pub fn stopped(&self) -> (r: bool)
        ensures
            exists|s: RbState| #[trigger] self.may_hold(s) && r == s.spec_canceled(),
    {
        let r = shared_stopped(&self.shared);
        proof {
            let s = choose|s: RbState| #[trigger] (*self.shared).inv(s) && r == s.spec_canceled();
            assert(self.may_hold(s));
        }
        r
    }

    /// Takes the header captured so far, leaving it empty. A pair made by
    /// [`new`] never enters header mode, so there is none.
    pub fn get_header(&self) -> (h: Vec<u8>)
        ensures
            exists|s: RbState| #[trigger] self.may_hold(s) && h@ == s.spec_header(),
            h@.len() == 0,
    {
        let (mut st, handle) = self.shared.acquire_write();
        let ghost s0 = st;
        let h = st.take_header();
        proof {
            assert(self.may_hold(s0));
        }
        handle.release_write(st);
        h
    }

    /// One non-blocking read (see [`RbState::read`]): at most `buf.len()`
    /// bytes, the oldest held, go to the front of `buf`. This is the whole
    /// of a read once the pair is canceled; before that, a read that waits
    /// for the buffer to fill is [`RBReader::read_step`] called in a loop.
    pub fn read(&self, buf: &mut [u8]) -> (r: Result<usize, ()>)
        ensures
            final(buf)@.len() == old(buf)@.len(),
            r matches Ok(n) ==> n <= old(buf)@.len(),
            exists|s: RbState| #[trigger] self.may_hold(s) && s.read_outcome(old(buf)@, final(buf)@, r),
            exists|s0: RbState, s1: RbState|
                #![trigger self.may_hold(s0), self.may_hold(s1)]
                self.may_hold(s0) && self.may_hold(s1) && s0.read_outcome(old(buf)@, final(buf)@, r)
                    && s1.ring()@ == s0.ring()@.subrange(
                    match r {
                        Ok(n) => n as int,
                        Err(_) => 0,
                    },
                    s0.ring()@.len() as int,
                ) && s1.spec_canceled() == s0.spec_canceled(),
    {
        let (mut st, handle) = self.shared.acquire_write();
        let ghost s0 = st;
        let r = st.read(buf);
        proof {
            assert(self.may_hold(s0));
            assert(self.may_hold(st));
            assert(s0.ring()@.subrange(0, s0.ring()@.len() as int) =~= s0.ring()@);
        }
        handle.release_write(st);
        r
    }

    /// One step of a blocking read that has filled `buf[..pos]` (see
    /// [`RbState::read_step`]). Called again after each `Moved`, and after
    /// a short wait on each `Wait`, it fills the buffer, or as much of it as
    /// comes before the pair is canceled and the ring drained.
    pub fn read_step(&self, buf: &mut [u8], pos: usize) -> (r: Step)
        requires
            pos <= old(buf)@.len(),
        ensures
            final(buf)@.len() == old(buf)@.len(),
            exists|s: RbState| #[trigger] self.may_hold(s) && s.read_step_outcome(pos as int, old(buf)@, final(buf)@, r),
            exists|s0: RbState, s1: RbState|
                #![trigger self.may_hold(s0), self.may_hold(s1)]
                self.may_hold(s0) && self.may_hold(s1) && s0.read_step_outcome(pos as int, old(buf)@, final(buf)@, r)
                    && s1.ring()@ == s0.ring()@.subrange(
                    match r {
                        Step::Moved(p) => p - pos,
                        _ => 0,
                    },
                    s0.ring()@.len() as int,
                ) && s1.spec_canceled() == s0.spec_canceled(),
    {
        let (mut st, handle) = self.shared.acquire_write();
        let ghost s0 = st;
        let r = st.read_step(buf, pos);
        proof {
            assert(self.may_hold(s0));
            assert(self.may_hold(st));
        }
        handle.release_write(st);
        r
    }

    /// Cancels both ends.
    pub fn cancel(&self) {
        shared_cancel(&self.shared)
    }
}

impl RBWriter {
    /// The capacity of the ring.
    pub closed spec fn cap(&self) -> nat {
        (*self.shared).pred().cap as nat
    }

    /// Whether the shared lock may hold `s`: a well-formed state around a
    /// ring of this capacity.
    pub closed spec fn may_hold(&self, s: RbState) -> bool {
        (*self.shared).inv(s)
    }

    /// Canceled and drained, as seen at the moment of the call.
    pub fn done(&self) -> (r: bool)
        ensures
            exists|s: RbState| #[trigger] self.may_hold(s) && r == (s.spec_canceled() && s.ring()@.len() == 0),
    {
        let r = shared_done(&self.shared);
        proof {
            let s = choose|s: RbState| #[trigger] (*self.shared).inv(s) && r == (s.spec_canceled() && s.ring()@.len() == 0);
            assert(self.may_hold(s));
        }
        r
    }

    /// Canceled, as seen at the moment of the call.
    pub fn stopped(&self) -> (r: bool)
        ensures
            exists|s: RbState| #[trigger] self.may_hold(s) && r == s.spec_canceled(),
    {
        let r = shared_stopped(&self.shared);
        proof {
            let s = choose|s: RbState| #[trigger] (*self.shared).inv(s) && r == s.spec_canceled();
            assert(self.may_hold(s));
        }
        r
    }

    /// One non-blocking write (see [`RbState::write`]): at most `buf.len()`
    /// bytes are taken. This is the whole of a write once the pair is
    /// canceled; before that, a write that waits for room is
    /// [`RBWriter::write_step`] called in a loop.
    pub fn write(&self, buf: &[u8]) -> (r: Result<usize, ()>)
        ensures
            r matches Ok(n) ==> n <= buf@.len(),
            exists|s: RbState| #[trigger] self.may_hold(s) && r == s.write_result(buf@),
            exists|s0: RbState, s1: RbState|
                #![trigger self.may_hold(s0), self.may_hold(s1)]
                self.may_hold(s0) && self.may_hold(s1) && r == s0.write_result(buf@) && s1.ring()@ == s0.ring()@
                    + buf@.subrange(
                    0,
                    match r {
                        Ok(n) => n as int,
                        Err(_) => 0,
                    },
                ) && s1.spec_canceled() == s0.spec_canceled(),
    {
        let (mut st, handle) = self.shared.acquire_write();
        proof {
            st.ring().lemma_len();
        }
        let ghost s0 = st;
        let r = st.write(buf);
        proof {
            assert(self.may_hold(s0));
            assert(self.may_hold(st));
            assert(s0.ring()@ + buf@.subrange(0, 0) =~= s0.ring()@);
        }
        handle.release_write(st);
        r
    }

    /// One step of a blocking write that has written `buf[..pos]` (see
    /// [`RbState::write_step`]). Called again after each `Moved`, and after
    /// a short wait on each `Wait`, it writes all of `buf`, unless the ring
    /// stays full.
    pub fn write_step(&self, buf: &[u8], pos: usize) -> (r: Step)
        requires
            pos <= buf@.len(),
        ensures
            exists|s: RbState| #[trigger] self.may_hold(s) && r == s.write_step_result(pos as int, buf@),
            exists|s0: RbState, s1: RbState|
                #![trigger self.may_hold(s0), self.may_hold(s1)]
                self.may_hold(s0) && self.may_hold(s1) && r == s0.write_step_result(pos as int, buf@) && s1.ring()@
                    == s0.ring()@ + buf@.subrange(
                    pos as int,
                    match r {
                        Step::Moved(p) => p as int,
                        _ => pos as int,
                    },
                ) && s1.spec_canceled() == s0.spec_canceled(),
    {
        let (mut st, handle) = self.shared.acquire_write();
        let ghost s0 = st;
        let r = st.write_step(buf, pos);
        proof {
            assert(self.may_hold(s0));
            assert(self.may_hold(st));
        }
        handle.release_write(st);
        r
    }

    /// Writes straight into the ring, bypassing the header and cancel modes.
    pub fn try_write_ring(&self, buf: &[u8]) -> (n: usize)
        ensures
            n <= buf@.len(),
            exists|s: RbState|
                #[trigger] self.may_hold(s) && n == if buf@.len() > s.ring().spec_cap() - s.ring()@.len() {
                    s.ring().spec_cap() - s.ring()@.len()
                } else {
                    buf@.len() as int
                },
            exists|s0: RbState, s1: RbState|
                #![trigger self.may_hold(s0), self.may_hold(s1)]
                self.may_hold(s0) && self.may_hold(s1) && s1.ring()@ == s0.ring()@ + buf@.subrange(0, n as int)
                    && s1.spec_canceled() == s0.spec_canceled(),
    {
        let (mut st, handle) = self.shared.acquire_write();
        let ghost s0 = st;
        let n = st.rb.try_write(buf);
        proof {
            assert(self.may_hold(s0));
            assert(self.may_hold(st));
        }
        handle.release_write(st);
        n
    }

    /// Ends header mode.
    pub fn header_written(&self) {
        let (mut st, handle) = self.shared.acquire_write();
        st.header_written();
        handle.release_write(st);
    }

    /// Marks the start of the trailer.
    pub fn body_written(&self) {
        let (mut st, handle) = self.shared.acquire_write();
        st.body_written();
        handle.release_write(st);
    }

    /// Read position of the ring at the moment of the call.
    pub fn rp(&self) -> (r: usize)
        ensures
            exists|s: RbState| #[trigger] self.may_hold(s) && r == s.ring().spec_rp(),
    {
        let handle = self.shared.acquire_read();
        let r = handle.borrow().rb.rp();
        proof {
            assert(self.may_hold(handle.view()));
        }
        handle.release_read();
        r
    }

    /// Write position of the ring at the moment of the call.
    pub fn wp(&self) -> (r: usize)
        ensures
            exists|s: RbState| #[trigger] self.may_hold(s) && r == s.ring().spec_wp(),
    {
        let handle = self.shared.acquire_read();
        let r = handle.borrow().rb.wp();
        proof {
            assert(self.may_hold(handle.view()));
        }
        handle.release_read();
        r
    }

    /// Bytes held at the moment of the call.
    pub fn len(&self) -> (r: usize)
        ensures
            exists|s: RbState| #[trigger] self.may_hold(s) && r == s.ring()@.len(),
    {
        let handle = self.shared.acquire_read();
        let r = handle.borrow().rb.len();
        proof {
            assert(self.may_hold(handle.view()));
            handle.view().ring().lemma_len();
        }
        handle.release_read();
        r
    }

    /// Cancels both ends.
    pub fn cancel(&self) {
        shared_cancel(&self.shared)
    }
}


/// What one end of a fresh pair writes is what the other end reads. From a
/// state the lock may hold with nothing in the ring and not canceled, a
/// write of `buf` takes as much of it as fits, `min(buf.len(), cap)`; if
/// the ring then holds what it held followed by those bytes (as
/// [`RBWriter::write`] says), a read of `b0.len()` bytes from there returns
/// `min(b0.len(), n)` and puts the first of the written bytes, in order, at
/// the front of the buffer, leaving the rest of it alone.
pub proof fn law_written_then_read(s0: RbState, buf: Seq<u8>, s1: RbState, b0: Seq<u8>, b1: Seq<u8>, r: Result<usize, ()>)
    requires
        s0.wf(),
        !s0.spec_writing_header(),
        !s0.spec_canceled(),
        s0.ring()@.len() == 0,
        s1.ring()@ == s0.ring()@ + buf.subrange(
            0,
            match s0.write_result(buf) {
                Ok(n) => n as int,
                Err(_) => 0,
            },
        ),
        s1.spec_canceled() == s0.spec_canceled(),
        s1.read_outcome(b0, b1, r),
    ensures
        ({
            let cap = s0.ring().spec_cap();
            let n = if buf.len() < cap { buf.len() } else { cap };
            let k = if b0.len() < n { b0.len() } else { n };
            &&& s0.write_result(buf) == Ok::<usize, ()>(n as usize)
            &&& r == Ok::<usize, ()>(k as usize)
            &&& b1.len() == b0.len()
            &&& b1.subrange(0, k as int) == buf.subrange(0, k as int)
            &&& b1.subrange(k as int, b0.len() as int) == b0.subrange(k as int, b0.len() as int)
        }),
{
    let cap = s0.ring().spec_cap();
    let n = if buf.len() < cap { buf.len() } else { cap };
    let k = if b0.len() < n { b0.len() } else { n };
    assert(s0.ring()@ + buf.subrange(0, n as int) =~= buf.subrange(0, n as int));
    assert(buf.subrange(0, n as int).subrange(0, k as int) =~= buf.subrange(0, k as int));
}

} // verus!
