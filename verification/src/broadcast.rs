use std::collections::{HashMap, HashSet, VecDeque};
use vstd::prelude::*;
use vstd::slice::slice_subrange;
use vstd::std_specs::hash::spec_hash_keys_iter;
use vstd::std_specs::iter::IteratorSpec;
use vstd::utf8::{decode_utf8, encode_utf8, valid_utf8};

use crate::api::Header;
use crate::config::{Container, StreamConfig};
use crate::text::{ends_with, ends_with_spec, i64_to_decimal, int_decimal, starts_with, starts_with_spec, str_eq};

verus! {

/// Bytes of body per HTTP chunk.
pub const CHUNK_SIZE: usize = 1024;

/// The line that opens each chunk: the chunk size in hex, `400\r\n`.
pub open spec fn chunk_header() -> Seq<u8> {
    seq![52u8, 48u8, 48u8, 13u8, 10u8]
}

/// The line that closes each chunk, `\r\n`.
pub open spec fn chunk_footer() -> Seq<u8> {
    seq![13u8, 10u8]
}

fn chunk_header_bytes() -> (v: Vec<u8>)
    ensures
        v@ == chunk_header(),
{
    let v: Vec<u8> = vec![52u8, 48u8, 48u8, 13u8, 10u8];
    assert(v@ =~= chunk_header());
    v
}

fn chunk_footer_bytes() -> (v: Vec<u8>)
    ensures
        v@ == chunk_footer(),
{
    let v: Vec<u8> = vec![13u8, 10u8];
    assert(v@ =~= chunk_footer());
    v
}

/// A sink of bytes, such as a socket. A write that returns `Ok(n)` took
/// the first `n` bytes it was given; one that fails took nothing.
pub trait Conn {
    fn write(&mut self, data: &[u8]) -> (r: Result<usize, IoFailure>)
        ensures
            r matches Ok(n) ==> n <= data@.len(),
    ;
}

/// A connection with the record of every byte it has taken, in order, and
/// of every write made to it: the bytes offered and the outcome.
pub struct Wire<C: Conn> {
    conn: C,
    taken: Ghost<Seq<u8>>,
    offered: Ghost<Seq<Seq<u8>>>,
    outcomes: Ghost<Seq<Result<usize, IoFailure>>>,
}

/// The record `o1` is the record `o0` with at least one more outcome.
pub open spec fn outcomes_grew<T>(o0: Seq<T>, o1: Seq<T>) -> bool {
    o1.len() > o0.len() && o1.subrange(0, o0.len() as int) == o0
}

proof fn lemma_outcomes_push<T>(o: Seq<T>, x: T)
    ensures
        outcomes_grew(o, o.push(x)),
{
    assert(o.push(x).subrange(0, o.len() as int) =~= o);
}

proof fn lemma_outcomes_grew_trans<T>(o0: Seq<T>, o1: Seq<T>, o2: Seq<T>)
    requires
        outcomes_grew(o0, o1),
        outcomes_grew(o1, o2),
    ensures
        outcomes_grew(o0, o2),
{
    assert(o2.subrange(0, o0.len() as int) =~= o0) by {
        assert forall|k: int| 0 <= k < o0.len() implies o2[k] == o0[k] by {
            assert(o2[k] == o2.subrange(0, o1.len() as int)[k]);
            assert(o1[k] == o1.subrange(0, o0.len() as int)[k]);
        }
    }
}

impl<C: Conn> Wire<C> {
    /// Everything the connection has taken so far.
    pub closed spec fn written(&self) -> Seq<u8> {
        self.taken@
    }

    pub closed spec fn inner(&self) -> C {
        self.conn
    }

    /// The outcome of every write made so far, in order.
    pub closed spec fn outcomes(&self) -> Seq<Result<usize, IoFailure>> {
        self.outcomes@
    }

    /// The bytes offered to every write made so far, in order.
    pub closed spec fn offered(&self) -> Seq<Seq<u8>> {
        self.offered@
    }

    /// A connection that has taken nothing yet.
    pub fn new(conn: C) -> (w: Wire<C>)
        ensures
            w.written() == Seq::<u8>::empty(),
            w.outcomes() == Seq::<Result<usize, IoFailure>>::empty(),
            w.offered() == Seq::<Seq<u8>>::empty(),
            w.inner() == conn,
    {
        Wire { conn, taken: Ghost(Seq::empty()), offered: Ghost(Seq::empty()), outcomes: Ghost(Seq::empty()) }
    }

    pub fn conn(&self) -> (c: &C)
        ensures
            *c == self.inner(),
    {
        &self.conn
    }

    pub fn into_inner(self) -> (c: C)
        ensures
            c == self.inner(),
    {
        self.conn
    }

    /// One write: its outcome joins the record of outcomes, and what the
    /// connection took joins the record of bytes.
    pub fn write(&mut self, data: &[u8]) -> (r: Result<usize, IoFailure>)
        ensures
            final(self).outcomes() == old(self).outcomes().push(r),
            final(self).offered() == old(self).offered().push(data@),
            match r {
                Ok(n) => n <= data@.len() && final(self).written() == old(self).written() + data@.subrange(
                    0,
                    n as int,
                ),
                Err(_) => final(self).written() == old(self).written(),
            },
    {
        let r = self.conn.write(data);
        if let Ok(n) = r {
            self.taken = Ghost(self.taken@ + data@.subrange(0, n as int));
        }
        self.outcomes = Ghost(self.outcomes@.push(r));
        self.offered = Ghost(self.offered@.push(data@));
        r
    }
}

/// Why a write to a [`Conn`] failed.
#[derive(PartialEq, Eq, Structural, Clone, Copy, Debug)]
pub enum IoFailure {
    WouldBlock,
    Other,
}

/// A [`Conn`] over a buffer of fixed size, filled from the front; once full
/// it takes nothing more.
pub struct FixedWriter {
    buf: Vec<u8>,
    pos: usize,
}

impl FixedWriter {
    /// The bytes written so far: the front of the buffer.
    pub closed spec fn written(&self) -> Seq<u8> {
        if self.pos <= self.buf@.len() {
            self.buf@.subrange(0, self.pos as int)
        } else {
            self.buf@
        }
    }

    pub closed spec fn wf(&self) -> bool {
        self.pos <= self.buf@.len()
    }

    /// How many more bytes fit.
    pub closed spec fn room(&self) -> nat {
        if self.pos <= self.buf@.len() {
            (self.buf@.len() - self.pos) as nat
        } else {
            0
        }
    }

    pub closed spec fn spec_buf(&self) -> Seq<u8> {
        self.buf@
    }

    /// A writer over `buf`, positioned at its start.
    pub fn new(buf: Vec<u8>) -> (w: FixedWriter)
        ensures
            w.wf(),
            w.spec_buf() == buf@,
            w.written() == Seq::<u8>::empty(),
    {
        let w = FixedWriter { buf, pos: 0 };
        assert(w.buf@.subrange(0, 0) =~= Seq::<u8>::empty());
        w
    }

    /// What has been written so far.
    pub fn written_bytes(&self) -> (v: Vec<u8>)
        requires
            self.wf(),
        ensures
            v@ == self.written(),
    {
        let mut v: Vec<u8> = Vec::new();
        let mut k: usize = 0;
        while k < self.pos
            invariant
                k <= self.pos,
                self.pos <= self.buf@.len(),
                v@ == self.buf@.subrange(0, k as int),
            decreases self.pos - k,
        {
            v.push(self.buf[k]);
            k = k + 1;
            proof {
                assert(v@ =~= self.buf@.subrange(0, k as int));
            }
        }
        v
    }

    /// The whole buffer, written part first.
    pub fn into_inner(self) -> (v: Vec<u8>)
        ensures
            v@ == self.spec_buf(),
    {
        self.buf
    }
}

impl Conn for FixedWriter {
    /// Takes as much of `data` as there is room for.
    fn write(&mut self, data: &[u8]) -> (r: Result<usize, IoFailure>)
        ensures
            r == Ok::<usize, IoFailure>(
                if data@.len() < old(self).room() {
                    data@.len() as usize
                } else {
                    old(self).room() as usize
                },
            ),
            r matches Ok(n) && final(self).written() == old(self).written() + data@.subrange(0, n as int),
            final(self).spec_buf().len() == old(self).spec_buf().len(),
            old(self).wf() ==> final(self).wf(),
    {
        if self.pos > self.buf.len() {
            return Ok(0);
        }
        let room = self.buf.len() - self.pos;
        let n = if data.len() < room { data.len() } else { room };
        let ghost old_buf = self.buf@;
        let mut k: usize = 0;
        while k < n
            invariant
                k <= n,
                n <= data@.len(),
                self.pos + n <= self.buf.len(),
                self.buf@.len() == old_buf.len(),
                self.pos == old(self).pos,
                old_buf == old(self).buf@,
                forall|i: int| 0 <= i < self.pos ==> self.buf@[i] == old_buf[i],
                forall|i: int| 0 <= i < k ==> self.buf@[self.pos + i] == data@[i],
            decreases n - k,
        {
            let p = self.pos + k;
            self.buf.set(p, data[k]);
            k = k + 1;
        }
        self.pos = self.pos + n;
        proof {
            assert(self.buf@.subrange(0, self.pos as int) =~= old_buf.subrange(0, old(self).pos as int)
                + data@.subrange(0, n as int));
        }
        Ok(n)
    }
}

/// What a [`Chunker`] is in the middle of sending.
pub enum ChunkerView {
    Header(Seq<u8>),
    Body(nat),
    Footer(Seq<u8>),
}

/// Frames a byte stream as HTTP chunks of [`CHUNK_SIZE`] bytes, across
/// writes that may each be cut short.
pub enum Chunker {
    /// The rest of the chunk-opening line is still to be sent.
    Header(Vec<u8>),
    /// This many bytes of the current chunk's body were sent.
    Body(usize),
    /// The rest of the chunk-closing line is still to be sent.
    Footer(Vec<u8>),
}

pub open spec fn chunker_rank(st: ChunkerView) -> nat {
    match st {
        ChunkerView::Body(_) => 0,
        ChunkerView::Header(_) => 1,
        ChunkerView::Footer(_) => 2,
    }
}

/// The bytes to be sent, from state `st`, to carry the data `d`: the rest of
/// the current line, then chunk after chunk, each full chunk followed by its
/// closing line and the next opening line.
pub open spec fn framed(st: ChunkerView, d: Seq<u8>) -> Seq<u8>
    decreases d.len(), chunker_rank(st),
{
    match st {
        ChunkerView::Header(h) => h + framed(ChunkerView::Body(0), d),
        ChunkerView::Body(i) => {
            if i >= CHUNK_SIZE {
                Seq::empty()
            } else if d.len() < CHUNK_SIZE - i {
                d
            } else {
                d.subrange(0, CHUNK_SIZE - i) + framed(
                    ChunkerView::Footer(chunk_footer()),
                    d.subrange(CHUNK_SIZE - i, d.len() as int),
                )
            }
        },
        ChunkerView::Footer(f) => f + framed(ChunkerView::Header(chunk_header()), d),
    }
}

/// Where the framing stands once all of `d` has been framed, closing lines
/// included: always inside a chunk's body.
pub open spec fn fin(st: ChunkerView, d: Seq<u8>) -> ChunkerView
    decreases d.len(), chunker_rank(st),
{
    match st {
        ChunkerView::Header(_) => fin(ChunkerView::Body(0), d),
        ChunkerView::Body(i) => {
            if i >= CHUNK_SIZE {
                st
            } else if d.len() < CHUNK_SIZE - i {
                ChunkerView::Body(i + d.len())
            } else {
                fin(ChunkerView::Footer(chunk_footer()), d.subrange(CHUNK_SIZE - i, d.len() as int))
            }
        },
        ChunkerView::Footer(_) => fin(ChunkerView::Header(chunk_header()), d),
    }
}

/// Framing two pieces of data in a row is framing the first, then framing
/// the second from where the first left off.
pub proof fn lemma_framed_concat(st: ChunkerView, d1: Seq<u8>, d2: Seq<u8>)
    ensures
        framed(st, d1 + d2) == framed(st, d1) + framed(fin(st, d1), d2),
    decreases d1.len(), chunker_rank(st),
{
    match st {
        ChunkerView::Header(h) => {
            lemma_framed_concat(ChunkerView::Body(0), d1, d2);
            assert(h + (framed(ChunkerView::Body(0), d1) + framed(fin(st, d1), d2)) =~= (h + framed(
                ChunkerView::Body(0),
                d1,
            )) + framed(fin(st, d1), d2));
        },
        ChunkerView::Body(i) => {
            let room = CHUNK_SIZE - i;
            let d = d1 + d2;
            if i >= CHUNK_SIZE {
                assert(framed(st, d2) == Seq::<u8>::empty());
                assert(Seq::<u8>::empty() + Seq::<u8>::empty() =~= Seq::<u8>::empty());
            } else if d1.len() < room {
                let j = (i + d1.len()) as nat;
                if d.len() < room {
                    assert(framed(ChunkerView::Body(j), d2) == d2);
                } else {
                    let ff = framed(ChunkerView::Footer(chunk_footer()), d.subrange(room as int, d.len() as int));
                    assert(d2.subrange(0, CHUNK_SIZE - j) =~= d.subrange(d1.len() as int, room as int));
                    assert(d2.subrange(CHUNK_SIZE - j, d2.len() as int) =~= d.subrange(room as int, d.len() as int));
                    assert(d.subrange(0, room as int) =~= d1 + d2.subrange(0, CHUNK_SIZE - j));
                    assert(d.subrange(0, room as int) + ff =~= d1 + (d2.subrange(0, CHUNK_SIZE - j) + ff));
                }
            } else {
                let r1 = d1.subrange(room as int, d1.len() as int);
                lemma_framed_concat(ChunkerView::Footer(chunk_footer()), r1, d2);
                assert(d.subrange(0, room as int) =~= d1.subrange(0, room as int));
                assert(d.subrange(room as int, d.len() as int) =~= r1 + d2);
                let a = d1.subrange(0, room as int);
                let b = framed(ChunkerView::Footer(chunk_footer()), r1);
                let c = framed(fin(ChunkerView::Footer(chunk_footer()), r1), d2);
                assert(a + (b + c) =~= (a + b) + c);
            }
        },
        ChunkerView::Footer(f) => {
            lemma_framed_concat(ChunkerView::Header(chunk_header()), d1, d2);
            assert(f + (framed(ChunkerView::Header(chunk_header()), d1) + framed(fin(st, d1), d2)) =~= (f
                + framed(ChunkerView::Header(chunk_header()), d1)) + framed(fin(st, d1), d2));
        },
    }
}

/// What [`Chunker::write`] does from state `st` with data `d` when the
/// connection answers its writes with `answers`, in turn: the bytes it
/// offers to each write, its result, and its new state. A pending line is
/// offered whole; once it is all taken the framing moves on in the same
/// call. A chunk's body is offered as much of `d` as the chunk has room for;
/// a completed chunk moves on to its closing line, and the data bytes sent
/// before any later failure are what is reported. `None` when the answers
/// do not fit such a run (too few, too many, or more taken than offered).
pub open spec fn chunk_run(st: ChunkerView, d: Seq<u8>, answers: Seq<Result<usize, IoFailure>>) -> Option<
    (Seq<Seq<u8>>, Result<Option<usize>, IoFailure>, ChunkerView),
>
    decreases d.len(), chunker_rank(st),
{
    if answers.len() == 0 {
        None
    } else {
        let a = answers[0];
        let more = answers.subrange(1, answers.len() as int);
        match st {
            ChunkerView::Header(h) => match a {
                Err(e) => if more.len() == 0 {
                    Some((seq![h], Err(e), st))
                } else {
                    None
                },
                Ok(n) => if n == h.len() {
                    match chunk_run(ChunkerView::Body(0), d, more) {
                        Some(x) => Some((seq![h] + x.0, x.1, x.2)),
                        None => None,
                    }
                } else if n < h.len() && more.len() == 0 {
                    Some((seq![h], Ok(None), ChunkerView::Header(h.subrange(n as int, h.len() as int))))
                } else {
                    None
                },
            },
            ChunkerView::Footer(f) => match a {
                Err(e) => if more.len() == 0 {
                    Some((seq![f], Err(e), st))
                } else {
                    None
                },
                Ok(n) => if n == f.len() {
                    match chunk_run(ChunkerView::Header(chunk_header()), d, more) {
                        Some(x) => Some((seq![f] + x.0, x.1, x.2)),
                        None => None,
                    }
                } else if n < f.len() && more.len() == 0 {
                    Some((seq![f], Ok(None), ChunkerView::Footer(f.subrange(n as int, f.len() as int))))
                } else {
                    None
                },
            },
            ChunkerView::Body(i) => if i >= CHUNK_SIZE {
                None
            } else {
                let m = if d.len() < CHUNK_SIZE - i {
                    d.len() as int
                } else {
                    CHUNK_SIZE - i
                };
                let offer = d.subrange(0, m);
                match a {
                    Err(e) => if more.len() == 0 {
                        Some((seq![offer], Err(e), st))
                    } else {
                        None
                    },
                    Ok(n) => if n > m {
                        None
                    } else if i + n == CHUNK_SIZE {
                        match chunk_run(ChunkerView::Footer(chunk_footer()), d.subrange(n as int, d.len() as int), more) {
                            Some(x) => Some(
                                (
                                    seq![offer] + x.0,
                                    Ok(
                                        Some(
                                            match x.1 {
                                                Ok(Some(c)) => (c + n) as usize,
                                                _ => n,
                                            },
                                        ),
                                    ),
                                    x.2,
                                ),
                            ),
                            None => None,
                        }
                    } else if more.len() == 0 {
                        Some((seq![offer], Ok(Some(n)), ChunkerView::Body((i + n) as nat)))
                    } else {
                        None
                    },
                }
            },
        }
    }
}

/// A record that grew from `r0` by `x` and then more is `x` followed by
/// the rest, counted from `r0`.
proof fn lemma_record_split<T>(r0: Seq<T>, x: T, r1: Seq<T>)
    requires
        outcomes_grew(r0.push(x), r1) || r1 == r0.push(x),
    ensures
        r1.subrange(r0.len() as int, r1.len() as int) == seq![x] + r1.subrange(r0.len() + 1int, r1.len() as int),
{
    assert(r1.subrange(0, r0.len() + 1int) == r0.push(x));
    assert(r1[r0.len() as int] == r1.subrange(0, r0.len() + 1int)[r0.len() as int]);
    assert(r1.subrange(r0.len() as int, r1.len() as int) =~= seq![x] + r1.subrange(r0.len() + 1int, r1.len() as int));
}

/// A line taken whole, then the rest of the run from the next state.
proof fn lemma_run_line_full(
    st: ChunkerView,
    line: Seq<u8>,
    next: ChunkerView,
    d: Seq<u8>,
    rest_answers: Seq<Result<usize, IoFailure>>,
    rest_offers: Seq<Seq<u8>>,
    r: Result<Option<usize>, IoFailure>,
    fst: ChunkerView,
)
    requires
        line.len() <= usize::MAX,
        (st == ChunkerView::Header(line) && next == ChunkerView::Body(0)) || (st == ChunkerView::Footer(line)
            && next == ChunkerView::Header(chunk_header())),
        chunk_run(next, d, rest_answers) == Some((rest_offers, r, fst)),
    ensures
        chunk_run(st, d, seq![Ok::<usize, IoFailure>(line.len() as usize)] + rest_answers) == Some(
            (seq![line] + rest_offers, r, fst),
        ),
{
    let ans = seq![Ok::<usize, IoFailure>(line.len() as usize)] + rest_answers;
    assert(ans.subrange(1, ans.len() as int) =~= rest_answers);
    assert(ans[0] == Ok::<usize, IoFailure>(line.len() as usize));
}

/// A chunk's body completed, then the rest of the run from its closing line.
proof fn lemma_run_body_full(
    i: nat,
    d: Seq<u8>,
    n: usize,
    rest_answers: Seq<Result<usize, IoFailure>>,
    rest_offers: Seq<Seq<u8>>,
    r: Result<Option<usize>, IoFailure>,
    fst: ChunkerView,
)
    requires
        i < CHUNK_SIZE,
        i + n == CHUNK_SIZE,
        n <= d.len(),
        chunk_run(ChunkerView::Footer(chunk_footer()), d.subrange(n as int, d.len() as int), rest_answers) == Some(
            (rest_offers, r, fst),
        ),
    ensures
        chunk_run(ChunkerView::Body(i), d, seq![Ok::<usize, IoFailure>(n)] + rest_answers) == Some(
            (
                seq![d.subrange(0, n as int)] + rest_offers,
                Ok::<Option<usize>, IoFailure>(
                    Some(
                        match r {
                            Ok(Some(c)) => (c + n) as usize,
                            _ => n,
                        },
                    ),
                ),
                fst,
            ),
        ),
{
    let ans = seq![Ok::<usize, IoFailure>(n)] + rest_answers;
    assert(ans.subrange(1, ans.len() as int) =~= rest_answers);
    assert(ans[0] == Ok::<usize, IoFailure>(n));
}

/// The states a chunker can be in: the rest of an opening or closing line
/// still to go, never empty, or a position inside a chunk's body.
pub open spec fn chunker_shape(c: ChunkerView) -> bool {
    match c {
        ChunkerView::Header(s) => 0 < s.len() <= chunk_header().len() && s == chunk_header().subrange(
            chunk_header().len() - s.len(),
            chunk_header().len() as int,
        ),
        ChunkerView::Body(i) => i < CHUNK_SIZE,
        ChunkerView::Footer(s) => 0 < s.len() <= chunk_footer().len() && s == chunk_footer().subrange(
            chunk_footer().len() - s.len(),
            chunk_footer().len() as int,
        ),
    }
}

/// A line cut short leaves the rest of the line, which is shorter and
/// still ends the whole line.
proof fn lemma_line_rest(line: Seq<u8>, s: Seq<u8>, n: int)
    requires
        0 < s.len() <= line.len(),
        s == line.subrange(line.len() - s.len(), line.len() as int),
        0 <= n < s.len(),
    ensures
        s.subrange(n, s.len() as int) == line.subrange(line.len() - (s.len() - n), line.len() as int),
{
    assert(s.subrange(n, s.len() as int) =~= line.subrange(line.len() - (s.len() - n), line.len() as int));
}

/// A run of [`Chunker::write`] (see [`chunk_run`]) from a state of that
/// shape ends in a state of that shape.
pub proof fn lemma_run_keeps_shape(st: ChunkerView, d: Seq<u8>, answers: Seq<Result<usize, IoFailure>>)
    requires
        chunker_shape(st),
        chunk_run(st, d, answers) is Some,
    ensures
        chunker_shape(chunk_run(st, d, answers).unwrap().2),
    decreases d.len(), chunker_rank(st),
{
    let a = answers[0];
    let more = answers.subrange(1, answers.len() as int);
    assert(chunker_shape(ChunkerView::Header(chunk_header()))) by {
        assert(chunk_header() =~= chunk_header().subrange(0, chunk_header().len() as int));
    }
    match st {
        ChunkerView::Header(h) => {
            if let Ok(n) = a {
                if n == h.len() {
                    lemma_run_keeps_shape(ChunkerView::Body(0), d, more);
                } else {
                    lemma_line_rest(chunk_header(), h, n as int);
                }
            }
        },
        ChunkerView::Footer(f) => {
            if let Ok(n) = a {
                if n == f.len() {
                    lemma_run_keeps_shape(ChunkerView::Header(chunk_header()), d, more);
                } else {
                    lemma_line_rest(chunk_footer(), f, n as int);
                }
            }
        },
        ChunkerView::Body(i) => {
            if let Ok(n) = a {
                if i + n == CHUNK_SIZE {
                    assert(chunker_shape(ChunkerView::Footer(chunk_footer()))) by {
                        assert(chunk_footer() =~= chunk_footer().subrange(0, chunk_footer().len() as int));
                    }
                    lemma_run_keeps_shape(ChunkerView::Footer(chunk_footer()), d.subrange(n as int, d.len() as int), more);
                }
            }
        },
    }
}

/// A chunker can go from `c0` to `c1` in one [`Chunker::write`]: some data
/// and some answers of the connection make a run (see [`chunk_run`]) that
/// ends in `c1`.
pub open spec fn chunker_moves(c0: ChunkerView, c1: ChunkerView) -> bool {
    exists|d: Seq<u8>, answers: Seq<Result<usize, IoFailure>>|
        #[trigger] chunk_run(c0, d, answers) matches Some(x) && x.2 == c1
}

/// Every state a chunker reaches from [`Chunker::new`], over any run of
/// writes, is the rest of an opening line, a position inside a chunk's
/// body, or the rest of a closing line, as [`chunker_shape`] says.
pub proof fn law_chunker_states(cs: Seq<ChunkerView>)
    requires
        cs.len() > 0,
        cs[0] == ChunkerView::Header(chunk_header()),
        forall|i: int| 0 <= i < cs.len() - 1 ==> #[trigger] chunker_moves(cs[i], cs[i + 1]),
    ensures
        forall|i: int| 0 <= i < cs.len() ==> #[trigger] chunker_shape(cs[i]),
    decreases cs.len(),
{
    if cs.len() == 1 {
        assert(chunk_header() =~= chunk_header().subrange(0, chunk_header().len() as int));
    } else {
        let c0 = cs.drop_last();
        assert forall|i: int| 0 <= i < c0.len() - 1 implies #[trigger] chunker_moves(c0[i], c0[i + 1]) by {
            assert(chunker_moves(cs[i], cs[i + 1]));
        }
        law_chunker_states(c0);
        let k = cs.len() - 2;
        assert(chunker_moves(cs[k], cs[k + 1]));
        let (d, ans) = choose|d: Seq<u8>, ans: Seq<Result<usize, IoFailure>>|
            #[trigger] chunk_run(cs[k], d, ans) matches Some(x) && x.2 == cs[k + 1];
        assert(chunker_shape(c0[k]));
        lemma_run_keeps_shape(cs[k], d, ans);
        assert forall|i: int| 0 <= i < cs.len() implies #[trigger] chunker_shape(cs[i]) by {
            if i < cs.len() - 1 {
                assert(chunker_shape(c0[i]));
            }
        }
    }
}

/// How many data bytes a result of [`Chunker::write`] reports as sent.
pub open spec fn sent_count(r: Result<Option<usize>, IoFailure>) -> nat {
    match r {
        Ok(Some(n)) => n as nat,
        _ => 0,
    }
}

impl View for Chunker {
    type V = ChunkerView;

    open spec fn view(&self) -> ChunkerView {
        match self {
            Chunker::Header(h) => ChunkerView::Header(h@),
            Chunker::Body(i) => ChunkerView::Body(*i as nat),
            Chunker::Footer(f) => ChunkerView::Footer(f@),
        }
    }
}

impl Chunker {
    /// A body position lies inside a chunk.
    pub open spec fn wf(&self) -> bool {
        match self {
            Chunker::Body(i) => *i < CHUNK_SIZE,
            _ => true,
        }
    }

    /// A chunker about to open the first chunk.
    pub fn new() -> (c: Chunker)
        ensures
            c@ == ChunkerView::Header(chunk_header()),
            c.wf(),
    {
        Chunker::Header(chunk_header_bytes())
    }

    /// Sends as much of `data`, framed, as `conn` takes. `Ok(Some(n))` means
    /// `n` data bytes went out; `Ok(None)` means a framing line was cut
    /// short and no data went out. Whatever the outcome, what `conn` took is
    /// the start of the framed stream, and the rest of that stream is what
    /// the new state still has to send for the data not sent.
    #[verifier::spinoff_prover]
    pub fn write<C: Conn>(&mut self, conn: &mut Wire<C>, data: &[u8]) -> (r: Result<Option<usize>, IoFailure>)
        requires
            old(self).wf(),
        ensures
            final(self).wf(),
            sent_count(r) <= data@.len(),
            final(conn).written().len() >= old(conn).written().len(),
            final(conn).written().subrange(0, old(conn).written().len() as int) == old(conn).written(),
            framed(old(self)@, data@) == final(conn).written().subrange(
                old(conn).written().len() as int,
                final(conn).written().len() as int,
            ) + framed(final(self)@, data@.subrange(sent_count(r) as int, data@.len() as int)),
            fin(final(self)@, data@.subrange(sent_count(r) as int, data@.len() as int)) == fin(old(self)@, data@),
            outcomes_grew(old(conn).outcomes(), final(conn).outcomes()),
            r matches Err(e) ==> final(conn).outcomes().last() == Err::<usize, IoFailure>(e),
            r == Ok::<Option<usize>, IoFailure>(Some(0)) ==> final(conn).outcomes().last() == Ok::<usize, IoFailure>(0),
            r == Ok::<Option<usize>, IoFailure>(None) ==> (final(conn).outcomes().last() matches Ok(n) && n
                < final(conn).offered().last().len()),
            outcomes_grew(old(conn).offered(), final(conn).offered()),
            final(conn).offered().len() + old(conn).outcomes().len() == final(conn).outcomes().len() + old(
                conn,
            ).offered().len(),
            continues(
                old(self)@,
                data@.subrange(0, sent_count(r) as int),
                final(conn).written().subrange(old(conn).written().len() as int, final(conn).written().len() as int),
                final(self)@,
            ),
            chunk_run(
                old(self)@,
                data@,
                final(conn).outcomes().subrange(old(conn).outcomes().len() as int, final(conn).outcomes().len() as int),
            ) == Some(
                (
                    final(conn).offered().subrange(old(conn).offered().len() as int, final(conn).offered().len() as int),
                    r,
                    final(self)@,
                ),
            ),
        decreases data@.len(), chunker_rank(old(self)@) + 1,
    {
        let ghost w0 = conn.written();
        let ghost o0 = conn.outcomes();
        let ghost f0 = conn.offered();
        let ghost d = data@;
        let ghost st0 = self@;
        proof {
            assert(d.subrange(0, d.len() as int) =~= d);
        }
        let line = match self {
            Chunker::Header(s) => Some((true, s.clone())),
            Chunker::Footer(s) => Some((false, s.clone())),
            Chunker::Body(_) => None,
        };
        match line {
            Some((is_header, s)) => {
                let wr = conn.write(s.as_slice());
                proof {
                    lemma_outcomes_push(o0, wr);
                    lemma_outcomes_push(f0, s@);
                    lemma_record_split(o0, wr, conn.outcomes());
                    lemma_record_split(f0, s@, conn.offered());
                }
                let amnt = match wr {
                    Ok(a) => a,
                    Err(e) => {
                        proof {
                            lemma_nothing_taken(w0, conn.written());
                            lemma_continues_self(st0);
                            assert(d.subrange(0, 0) =~= Seq::<u8>::empty());
                        }
                        return Err(e);
                    },
                };
                let ghost wm = conn.written();
                let ghost om = conn.outcomes();
                let ghost fm = conn.offered();
                if amnt == s.len() {
                    proof {
                        assert(s@ =~= s@.subrange(0, amnt as int));
                    }
                    *self = if is_header {
                        Chunker::Body(0)
                    } else {
                        Chunker::Header(chunk_header_bytes())
                    };
                    let ghost st1 = self@;
                    let r = self.write(conn, data);
                    proof {
                        lemma_outcomes_grew_trans(o0, om, conn.outcomes());
                        lemma_outcomes_grew_trans(f0, fm, conn.offered());
                        let o1 = conn.outcomes();
                        let f1 = conn.offered();
                        lemma_record_split(o0, wr, o1);
                        lemma_record_split(f0, s@, f1);
                        lemma_run_line_full(
                            st0,
                            s@,
                            st1,
                            d,
                            o1.subrange(o0.len() + 1int, o1.len() as int),
                            f1.subrange(f0.len() + 1int, f1.len() as int),
                            r,
                            self@,
                        );
                        let w1 = conn.written();
                        lemma_extend(w0, s@, wm, w1);
                        let rest = framed(self@, d.subrange(sent_count(r) as int, d.len() as int));
                        let a = w1.subrange(wm.len() as int, w1.len() as int);
                        assert(framed(st0, d) == s@ + framed(st1, d));
                        assert(s@ + (a + rest) =~= (s@ + a) + rest);
                        assert(st0 == line_state(is_header, s@) && st1 == after_line(is_header));
                        lemma_continues_line(is_header, s@, d.subrange(0, sent_count(r) as int), a, self@);
                    }
                    r
                } else {
                    let rest = split_off_front(&s, amnt);
                    proof {
                        assert(wm.subrange(w0.len() as int, wm.len() as int) =~= s@.subrange(0, amnt as int));
                        assert(wm.subrange(0, w0.len() as int) =~= w0);
                        assert(s@ =~= s@.subrange(0, amnt as int) + rest@);
                        let next = if is_header {
                            ChunkerView::Body(0)
                        } else {
                            ChunkerView::Header(chunk_header())
                        };
                        let b = framed(next, d);
                        assert(s@ + b =~= s@.subrange(0, amnt as int) + (rest@ + b));
                    }
                    *self = if is_header {
                        Chunker::Header(rest)
                    } else {
                        Chunker::Footer(rest)
                    };
                    proof {
                        assert(d.subrange(0, 0) =~= Seq::<u8>::empty());
                        assert(rest@ =~= s@.subrange(amnt as int, s@.len() as int));
                        assert(st0 == line_state(is_header, s@));
                        lemma_continues_cut(is_header, s@, amnt as int);
                    }
                    Ok(None)
                }
            },
            None => self.write_body(conn, data),
        }
    }

    #[verifier::spinoff_prover]
    fn write_body<C: Conn>(&mut self, conn: &mut Wire<C>, data: &[u8]) -> (r: Result<Option<usize>, IoFailure>)
        requires
            old(self).wf(),
            *old(self) is Body,
        ensures
            final(self).wf(),
            sent_count(r) <= data@.len(),
            final(conn).written().len() >= old(conn).written().len(),
            final(conn).written().subrange(0, old(conn).written().len() as int) == old(conn).written(),
            framed(old(self)@, data@) == final(conn).written().subrange(
                old(conn).written().len() as int,
                final(conn).written().len() as int,
            ) + framed(final(self)@, data@.subrange(sent_count(r) as int, data@.len() as int)),
            fin(final(self)@, data@.subrange(sent_count(r) as int, data@.len() as int)) == fin(old(self)@, data@),
            outcomes_grew(old(conn).outcomes(), final(conn).outcomes()),
            r matches Err(e) ==> final(conn).outcomes().last() == Err::<usize, IoFailure>(e),
            r == Ok::<Option<usize>, IoFailure>(Some(0)) ==> final(conn).outcomes().last() == Ok::<usize, IoFailure>(0),
            r == Ok::<Option<usize>, IoFailure>(None) ==> (final(conn).outcomes().last() matches Ok(n) && n
                < final(conn).offered().last().len()),
            outcomes_grew(old(conn).offered(), final(conn).offered()),
            final(conn).offered().len() + old(conn).outcomes().len() == final(conn).outcomes().len() + old(
                conn,
            ).offered().len(),
            continues(
                old(self)@,
                data@.subrange(0, sent_count(r) as int),
                final(conn).written().subrange(old(conn).written().len() as int, final(conn).written().len() as int),
                final(self)@,
            ),
            chunk_run(
                old(self)@,
                data@,
                final(conn).outcomes().subrange(old(conn).outcomes().len() as int, final(conn).outcomes().len() as int),
            ) == Some(
                (
                    final(conn).offered().subrange(old(conn).offered().len() as int, final(conn).offered().len() as int),
                    r,
                    final(self)@,
                ),
            ),
        decreases data@.len(), 0nat,
    {
        let ghost w0 = conn.written();
        let ghost o0 = conn.outcomes();
        let ghost f0 = conn.offered();
        let ghost d = data@;
        let ghost st0 = self@;
        let i = match self {
            Chunker::Body(i) => *i,
            _ => 0,
        };
        let room = CHUNK_SIZE - i;
        let n = if room < data.len() { room } else { data.len() };
        let wr = conn.write(&data[0..n]);
        proof {
            lemma_outcomes_push(o0, wr);
            lemma_outcomes_push(f0, d.subrange(0, n as int));
            lemma_record_split(o0, wr, conn.outcomes());
            lemma_record_split(f0, d.subrange(0, n as int), conn.offered());
        }
        let ghost om = conn.outcomes();
        let ghost fm = conn.offered();
        let amnt = match wr {
            Ok(a) => a,
            Err(e) => {
                proof {
                    lemma_nothing_taken(w0, conn.written());
                    assert(d.subrange(0, d.len() as int) =~= d);
                    lemma_continues_self(st0);
                    assert(d.subrange(0, 0) =~= Seq::<u8>::empty());
                }
                return Err(e);
            },
        };
        let ghost wm = conn.written();
        proof {
            assert(data@.subrange(0, n as int).subrange(0, amnt as int) =~= d.subrange(0, amnt as int));
        }
        if i + amnt == CHUNK_SIZE {
            *self = Chunker::Footer(chunk_footer_bytes());
            let rest = &data[amnt..data.len()];
            let r = self.write(conn, rest);
            proof {
                lemma_outcomes_grew_trans(o0, om, conn.outcomes());
                lemma_outcomes_grew_trans(f0, fm, conn.offered());
                let o1 = conn.outcomes();
                let f1 = conn.offered();
                lemma_record_split(o0, wr, o1);
                lemma_record_split(f0, d.subrange(0, n as int), f1);
                assert(d.subrange(0, n as int) == d.subrange(0, amnt as int));
                lemma_run_body_full(
                    i as nat,
                    d,
                    amnt,
                    o1.subrange(o0.len() + 1int, o1.len() as int),
                    f1.subrange(f0.len() + 1int, f1.len() as int),
                    r,
                    self@,
                );
            }
            let c = match r {
                Ok(r) => {
                    match r {
                        Some(a) => a + amnt,
                        None => amnt,
                    }
                },
                Err(_) => amnt,
            };
            proof {
                let w1 = conn.written();
                let tail = framed(self@, rest@.subrange(sent_count(r) as int, rest@.len() as int));
                assert(rest@.subrange(sent_count(r) as int, rest@.len() as int) =~= d.subrange(
                    c as int,
                    d.len() as int,
                ));
                lemma_extend(w0, d.subrange(0, amnt as int), wm, w1);
                let a = w1.subrange(wm.len() as int, w1.len() as int);
                assert(framed(ChunkerView::Body(i as nat), d) == d.subrange(0, amnt as int) + framed(
                    ChunkerView::Footer(chunk_footer()),
                    rest@,
                ));
                assert(d.subrange(0, amnt as int) + (a + tail) =~= (d.subrange(0, amnt as int) + a) + tail);
                assert(fin(ChunkerView::Body(i as nat), d) == fin(ChunkerView::Footer(chunk_footer()), rest@));
                let p2 = rest@.subrange(0, sent_count(r) as int);
                lemma_continues_body_full(i as nat, d.subrange(0, amnt as int), p2, a, self@);
                assert(d.subrange(0, amnt as int) + p2 =~= d.subrange(0, c as int));
            }
            Ok(Some(c))
        } else {
            *self = Chunker::Body(i + amnt);
            proof {
                assert(wm.subrange(0, w0.len() as int) =~= w0);
                assert(wm.subrange(w0.len() as int, wm.len() as int) =~= d.subrange(0, amnt as int));
                lemma_body_partial(i as nat, amnt as nat, d);
                lemma_fin_partial(i as nat, amnt as nat, d);
                lemma_continues_body(i as nat, d.subrange(0, amnt as int));
            }
            Ok(Some(amnt))
        }
    }
}

/// A failed write leaves the sink as it was.
proof fn lemma_nothing_taken(w0: Seq<u8>, w1: Seq<u8>)
    requires
        w1 == w0,
    ensures
        w1.subrange(0, w0.len() as int) == w0,
        w1.subrange(w0.len() as int, w1.len() as int) == Seq::<u8>::empty(),
{
    assert(w1.subrange(0, w0.len() as int) =~= w0);
    assert(w1.subrange(w0.len() as int, w1.len() as int) =~= Seq::<u8>::empty());
}

/// Two writes in a row: `x` taken, then whatever else.
proof fn lemma_extend(w0: Seq<u8>, x: Seq<u8>, wm: Seq<u8>, w1: Seq<u8>)
    requires
        wm == w0 + x,
        w1.len() >= wm.len(),
        w1.subrange(0, wm.len() as int) == wm,
    ensures
        w1.subrange(0, w0.len() as int) == w0,
        w1.subrange(w0.len() as int, w1.len() as int) == x + w1.subrange(wm.len() as int, w1.len() as int),
{
    assert(w1.subrange(0, w0.len() as int) =~= w0) by {
        assert forall|k: int| 0 <= k < w0.len() implies w1[k] == w0[k] by {
            assert(w1[k] == w1.subrange(0, wm.len() as int)[k]);
        }
    }
    assert(w1.subrange(w0.len() as int, w1.len() as int) =~= x + w1.subrange(wm.len() as int, w1.len() as int)) by {
        assert forall|k: int| 0 <= k < x.len() implies w1[w0.len() + k] == x[k] by {
            assert(w1[w0.len() + k] == w1.subrange(0, wm.len() as int)[w0.len() + k]);
        }
    }
}

/// Sending part of a chunk's body does not change where the framing ends up.
proof fn lemma_fin_partial(i: nat, amnt: nat, d: Seq<u8>)
    requires
        i + amnt < CHUNK_SIZE,
        amnt <= d.len(),
    ensures
        fin(ChunkerView::Body(i), d) == fin(ChunkerView::Body(i + amnt), d.subrange(amnt as int, d.len() as int)),
{
    let rest = d.subrange(amnt as int, d.len() as int);
    let j = i + amnt;
    if d.len() >= CHUNK_SIZE - i {
        assert(rest.subrange(CHUNK_SIZE - j, rest.len() as int) =~= d.subrange(CHUNK_SIZE - i, d.len() as int));
    }
}

/// Sending part of a chunk's body leaves the rest of the framing as it was.
proof fn lemma_body_partial(i: nat, amnt: nat, d: Seq<u8>)
    requires
        i + amnt < CHUNK_SIZE,
        amnt <= d.len(),
    ensures
        framed(ChunkerView::Body(i), d) == d.subrange(0, amnt as int) + framed(
            ChunkerView::Body(i + amnt),
            d.subrange(amnt as int, d.len() as int),
        ),
{
    let j = i + amnt;
    let rest = d.subrange(amnt as int, d.len() as int);
    if d.len() < CHUNK_SIZE - i {
        assert(d =~= d.subrange(0, amnt as int) + rest);
    } else {
        assert(rest.subrange(0, CHUNK_SIZE - j) =~= d.subrange(amnt as int, CHUNK_SIZE - i));
        assert(rest.subrange(CHUNK_SIZE - j, rest.len() as int) =~= d.subrange(CHUNK_SIZE - i, d.len() as int));
        assert(d.subrange(0, CHUNK_SIZE - i) =~= d.subrange(0, amnt as int) + d.subrange(
            amnt as int,
            CHUNK_SIZE - i,
        ));
        let f = framed(ChunkerView::Footer(chunk_footer()), d.subrange(CHUNK_SIZE - i, d.len() as int));
        assert(d.subrange(0, CHUNK_SIZE - i) + f =~= d.subrange(0, amnt as int) + (rest.subrange(
            0,
            CHUNK_SIZE - j,
        ) + f));
    }
}

/// From `c0`, framing `p` and then anything more, `y`, gives `t` followed by
/// the framing of `y` from `c1`: the state `c1` carries on where `t`, the
/// framing of `p`, left off.
pub open spec fn continues(c0: ChunkerView, p: Seq<u8>, t: Seq<u8>, c1: ChunkerView) -> bool {
    forall|y: Seq<u8>| #![trigger framed(c1, y)] framed(c0, p + y) == t + framed(c1, y)
}

/// Nothing framed, nothing sent: a state carries on from itself.
proof fn lemma_continues_self(c: ChunkerView)
    ensures
        continues(c, Seq::<u8>::empty(), Seq::<u8>::empty(), c),
{
    assert forall|y: Seq<u8>| #![trigger framed(c, y)] framed(c, Seq::<u8>::empty() + y) == Seq::<u8>::empty()
        + framed(c, y) by {
        assert(Seq::<u8>::empty() + y =~= y);
        assert(Seq::<u8>::empty() + framed(c, y) =~= framed(c, y));
    }
}

/// The state holding the rest `s` of an opening line (`is_header`) or of a
/// closing line, and the state that follows once it is all sent.
pub open spec fn line_state(is_header: bool, s: Seq<u8>) -> ChunkerView {
    if is_header {
        ChunkerView::Header(s)
    } else {
        ChunkerView::Footer(s)
    }
}

pub open spec fn after_line(is_header: bool) -> ChunkerView {
    if is_header {
        ChunkerView::Body(0)
    } else {
        ChunkerView::Header(chunk_header())
    }
}

/// A whole line taken, then a run from the state after it.
proof fn lemma_continues_line(is_header: bool, line: Seq<u8>, p: Seq<u8>, t: Seq<u8>, c1: ChunkerView)
    requires
        continues(after_line(is_header), p, t, c1),
    ensures
        continues(line_state(is_header, line), p, line + t, c1),
{
    let c0 = line_state(is_header, line);
    let next = after_line(is_header);
    assert forall|y: Seq<u8>| #![trigger framed(c1, y)] framed(c0, p + y) == (line + t) + framed(c1, y) by {
        assert(framed(c0, p + y) == line + framed(next, p + y));
        assert(line + (t + framed(c1, y)) =~= (line + t) + framed(c1, y));
    }
}

/// A line cut short after `a` of its bytes: nothing of the data is framed
/// yet, and the rest of the line is what is still to go.
proof fn lemma_continues_cut(is_header: bool, s: Seq<u8>, a: int)
    requires
        0 <= a <= s.len(),
    ensures
        continues(
            line_state(is_header, s),
            Seq::<u8>::empty(),
            s.subrange(0, a),
            line_state(is_header, s.subrange(a, s.len() as int)),
        ),
{
    let c0 = line_state(is_header, s);
    let c1 = line_state(is_header, s.subrange(a, s.len() as int));
    let next = after_line(is_header);
    assert forall|y: Seq<u8>| #![trigger framed(c1, y)] framed(c0, Seq::<u8>::empty() + y) == s.subrange(0, a)
        + framed(c1, y) by {
        assert(Seq::<u8>::empty() + y =~= y);
        assert(framed(c1, y) == s.subrange(a, s.len() as int) + framed(next, y));
        assert(framed(c0, y) == s + framed(next, y));
        assert(s + framed(next, y) =~= s.subrange(0, a) + (s.subrange(a, s.len() as int) + framed(next, y)));
    }
}

/// Part of a chunk's body sent, the chunk still open.
proof fn lemma_continues_body(i: nat, p: Seq<u8>)
    requires
        i + p.len() < CHUNK_SIZE,
    ensures
        continues(ChunkerView::Body(i), p, p, ChunkerView::Body(i + p.len())),
{
    let j = i + p.len();
    assert forall|y: Seq<u8>| #![trigger framed(ChunkerView::Body(j), y)] framed(ChunkerView::Body(i), p + y) == p
        + framed(ChunkerView::Body(j), y) by {
        let q = p + y;
        let room = CHUNK_SIZE - i;
        if q.len() < room {
            assert(y.len() < CHUNK_SIZE - j);
        } else {
            let ff = framed(ChunkerView::Footer(chunk_footer()), y.subrange(CHUNK_SIZE - j, y.len() as int));
            assert(q.subrange(0, room as int) =~= p + y.subrange(0, CHUNK_SIZE - j));
            assert(q.subrange(room as int, q.len() as int) =~= y.subrange(CHUNK_SIZE - j, y.len() as int));
            assert((p + y.subrange(0, CHUNK_SIZE - j)) + ff =~= p + (y.subrange(0, CHUNK_SIZE - j) + ff));
        }
    }
}

/// A chunk's body completed by `p`, then a run from its closing line.
proof fn lemma_continues_body_full(i: nat, p: Seq<u8>, p2: Seq<u8>, t: Seq<u8>, c1: ChunkerView)
    requires
        i < CHUNK_SIZE,
        i + p.len() == CHUNK_SIZE,
        continues(ChunkerView::Footer(chunk_footer()), p2, t, c1),
    ensures
        continues(ChunkerView::Body(i), p + p2, p + t, c1),
{
    assert forall|y: Seq<u8>| #![trigger framed(c1, y)] framed(ChunkerView::Body(i), (p + p2) + y) == (p + t)
        + framed(c1, y) by {
        let q = (p + p2) + y;
        assert(q.subrange(0, p.len() as int) =~= p);
        assert(q.subrange(p.len() as int, q.len() as int) =~= p2 + y);
        assert(framed(ChunkerView::Footer(chunk_footer()), p2 + y) == t + framed(c1, y));
        assert(p + (t + framed(c1, y)) =~= (p + t) + framed(c1, y));
    }
}

/// The bytes of `s` after the first `k`.
fn split_off_front(s: &Vec<u8>, k: usize) -> (r: Vec<u8>)
    requires
        k <= s@.len(),
    ensures
        r@ == s@.subrange(k as int, s@.len() as int),
{
    let mut r: Vec<u8> = Vec::new();
    let mut j: usize = k;
    while j < s.len()
        invariant
            k <= j <= s@.len(),
            r@ == s@.subrange(k as int, j as int),
        decreases s@.len() - j,
    {
        r.push(s[j]);
        j = j + 1;
        proof {
            assert(r@ =~= s@.subrange(k as int, j as int));
        }
    }
    r
}

} // verus!

verus! {

/// A presentation time in seconds, held as the bit pattern of the IEEE-754
/// double that the encoder reported; nothing here computes with it.
#[derive(Clone, Copy, PartialEq, Eq, Structural, Debug)]
pub struct Timestamp {
    pub bits: u64,
}

/// A piece of an encoded stream on its way to the listeners of one mount.
#[derive(Debug)]
pub struct Buffer {
    pub mount: usize,
    pub data: BufferData,
}

/// The header of a song's stream, one encoded frame, or the trailer.
#[derive(Debug)]
pub enum BufferData {
    Header(Vec<u8>),
    Frame { data: Vec<u8>, pts: Timestamp },
    Trailer(Vec<u8>),
}

impl Buffer {
    pub fn new(mount: usize, data: BufferData) -> (b: Buffer)
        ensures
            b.mount == mount,
            b.data == data,
    {
        Buffer { mount, data }
    }
}

impl BufferData {
    /// The bytes carried, whatever the kind.
    pub open spec fn bytes(&self) -> Seq<u8> {
        match self {
            BufferData::Header(f) => f@,
            BufferData::Frame { data, .. } => data@,
            BufferData::Trailer(f) => f@,
        }
    }

    /// Whether this is an encoded frame (not a header or trailer).
    pub fn is_data(&self) -> (r: bool)
        ensures
            r == (self is Frame),
    {
        match self {
            BufferData::Frame { .. } => true,
            _ => false,
        }
    }

    /// The bytes carried.
    pub fn frame(&self) -> (f: &[u8])
        ensures
            f@ == self.bytes(),
    {
        match self {
            BufferData::Header(f) => f.as_slice(),
            BufferData::Frame { data, .. } => data.as_slice(),
            BufferData::Trailer(f) => f.as_slice(),
        }
    }
}

} // verus!

verus! {

/// Listening programs the broadcaster treats apart.
#[derive(Clone, Copy, PartialEq, Eq, Structural, Debug)]
pub enum Agent {
    MPV,
    MPD,
    Other,
}

/// What an HTTP request parser made of the bytes received so far.
pub enum ParsedRequest {
    /// The request line and headers are complete.
    Complete { path: Option<String>, headers: Vec<(String, Vec<u8>)> },
    /// More bytes are needed.
    Partial,
    /// The bytes are not an HTTP request.
    Invalid,
}

pub enum ParsedRequestView {
    Complete(Option<Seq<char>>, Seq<(Seq<char>, Seq<u8>)>),
    Partial,
    Invalid,
}

pub open spec fn raw_headers_view(v: Seq<(String, Vec<u8>)>) -> Seq<(Seq<char>, Seq<u8>)> {
    Seq::new(v.len(), |i: int| (v[i].0@, v[i].1@))
}

impl View for ParsedRequest {
    type V = ParsedRequestView;

    open spec fn view(&self) -> ParsedRequestView {
        match self {
            ParsedRequest::Complete { path, headers } => ParsedRequestView::Complete(
                match path {
                    Some(p) => Some(p@),
                    None => None,
                },
                raw_headers_view(headers@),
            ),
            ParsedRequest::Partial => ParsedRequestView::Partial,
            ParsedRequest::Invalid => ParsedRequestView::Invalid,
        }
    }
}

/// What `httparse::Request::parse` makes of `buf` with room for
/// `max_headers` headers: the path and headers when complete.
pub uninterp spec fn httparse_request(buf: Seq<u8>, max_headers: nat) -> ParsedRequestView;

/// Wraps `httparse::Request::parse` over `max_headers` empty header slots,
/// converting the borrowed path and headers into owned values. The result
/// is named by [`httparse_request`]; nothing more is stated of it.
#[verifier::external_body]
fn parse_request(buf: &[u8], max_headers: usize) -> (r: ParsedRequest)
    ensures
        r@ == httparse_request(buf@, max_headers as nat),
{
    let mut headers = vec![httparse::EMPTY_HEADER; max_headers];
    let mut req = httparse::Request::new(&mut headers);
    match req.parse(buf) {
        Ok(httparse::Status::Complete(_)) => ParsedRequest::Complete {
            path: req.path.map(|p| p.to_owned()),
            headers: req.headers.iter().map(|h| (h.name.to_owned(), h.value.to_vec())).collect(),
        },
        Ok(httparse::Status::Partial) => ParsedRequest::Partial,
        Err(_) => ParsedRequest::Invalid,
    }
}

/// Wraps `String::from_utf8`: the bytes as a string when they are valid
/// UTF-8, as its documentation says.
#[verifier::external_body]
fn string_from_utf8(v: Vec<u8>) -> (r: Option<String>)
    ensures
        r is Some <==> valid_utf8(v@),
        r matches Some(s) ==> s@ == decode_utf8(v@),
{
    String::from_utf8(v).ok()
}

/// How many headers a listener's request may carry.
pub const MAX_HEADERS: usize = 16;

/// A header as received becomes a name and a text value; a value that is
/// not UTF-8 becomes empty.
pub open spec fn header_text(h: (Seq<char>, Seq<u8>)) -> (Seq<char>, Seq<char>) {
    (h.0, if valid_utf8(h.1) { decode_utf8(h.1) } else { Seq::empty() })
}

/// The headers kept: all but empty ones (no name, no value), as text.
pub open spec fn kept_headers(hs: Seq<(Seq<char>, Seq<u8>)>) -> Seq<(Seq<char>, Seq<char>)>
    decreases hs.len(),
{
    if hs.len() == 0 {
        Seq::empty()
    } else {
        let rest = kept_headers(hs.drop_last());
        let h = hs.last();
        if h.0.len() == 0 && h.1.len() == 0 {
            rest
        } else {
            rest.push(header_text(h))
        }
    }
}

/// The listening program told by the `User-Agent` headers, the last one
/// starting with `mpv` or `mpd` deciding.
pub open spec fn agent_of(hs: Seq<(Seq<char>, Seq<char>)>) -> Agent
    decreases hs.len(),
{
    if hs.len() == 0 {
        Agent::Other
    } else {
        let h = hs.last();
        if h.0 == "User-Agent"@ && starts_with_spec(h.1, "mpv"@) {
            Agent::MPV
        } else if h.0 == "User-Agent"@ && starts_with_spec(h.1, "mpd"@) {
            Agent::MPD
        } else {
            agent_of(hs.drop_last())
        }
    }
}

pub open spec fn headers_view(v: Seq<Header>) -> Seq<(Seq<char>, Seq<char>)> {
    Seq::new(v.len(), |i: int| (v[i].name@, v[i].value@))
}

/// What a parsed request asks for: `Ok(None)` while incomplete; the path,
/// the listening program and the headers when complete; `Err` when it is
/// not a request or has no path.
pub open spec fn parsed_outcome(p: ParsedRequestView, r: Result<Option<(String, Agent, Vec<Header>)>, ()>) -> bool {
    match p {
        ParsedRequestView::Complete(Some(path_seen), hs) => match r {
            Ok(Some((path, agent, headers))) => path@ == path_seen && headers_view(headers@) == kept_headers(hs)
                && agent == agent_of(kept_headers(hs)),
            _ => false,
        },
        ParsedRequestView::Complete(None, _) => r is Err,
        ParsedRequestView::Partial => r matches Ok(None),
        ParsedRequestView::Invalid => r is Err,
    }
}

/// What a listener's request, as received so far, asks for (see
/// [`parsed_outcome`]), as parsed from the bytes `buf`.
pub open spec fn request_outcome(buf: Seq<u8>, r: Result<Option<(String, Agent, Vec<Header>)>, ()>) -> bool {
    parsed_outcome(httparse_request(buf, MAX_HEADERS as nat), r)
}

/// Reads a listener's request from the bytes received so far.
pub fn process_request(buf: &[u8]) -> (r: Result<Option<(String, Agent, Vec<Header>)>, ()>)
    ensures
        request_outcome(buf@, r),
{
    interpret_request(parse_request(buf, MAX_HEADERS))
}

/// What a parsed request asks for (see [`parsed_outcome`]).
pub fn interpret_request(parsed: ParsedRequest) -> (r: Result<Option<(String, Agent, Vec<Header>)>, ()>)
    ensures
        parsed_outcome(parsed@, r),
{
    match parsed {
        ParsedRequest::Complete { path, headers } => match path {
            Some(p) => {
                let ghost raw = raw_headers_view(headers@);
                let mut agent = Agent::Other;
                let mut ah: Vec<Header> = Vec::new();
                let mut k: usize = 0;
                while k < headers.len()
                    invariant
                        k <= headers@.len(),
                        raw == raw_headers_view(headers@),
                        headers_view(ah@) == kept_headers(raw.subrange(0, k as int)),
                        agent == agent_of(kept_headers(raw.subrange(0, k as int))),
                    decreases headers@.len() - k,
                {
                    let name = &headers[k].0;
                    let value = &headers[k].1;
                    proof {
                        assert(raw.subrange(0, k + 1).drop_last() =~= raw.subrange(0, k as int));
                        assert(raw.subrange(0, k + 1).last() == raw[k as int]);
                    }
                    if name.unicode_len() == 0 && value.len() == 0 {
                    } else {
                        let text = match string_from_utf8(value.clone()) {
                            Some(t) => t,
                            None => String::new(),
                        };
                        if str_eq(name.as_str(), "User-Agent") {
                            if starts_with(text.as_str(), "mpv") {
                                agent = Agent::MPV;
                            } else if starts_with(text.as_str(), "mpd") {
                                agent = Agent::MPD;
                            }
                        }
                        let ghost before = headers_view(ah@);
                        ah.push(Header { name: name.clone(), value: text });
                        proof {
                            assert(headers_view(ah@) =~= before.push(header_text(raw[k as int])));
                        }
                        proof {
                            let kk = kept_headers(raw.subrange(0, k + 1));
                            assert(kk == kept_headers(raw.subrange(0, k as int)).push(header_text(raw[k as int])));
                            assert(kk.last() == header_text(raw[k as int]));
                            assert(kk.drop_last() =~= kept_headers(raw.subrange(0, k as int)));
                        }
                    }
                    k = k + 1;
                }
                proof {
                    assert(raw.subrange(0, headers@.len() as int) =~= raw);
                }
                Ok(Some((p, agent, ah)))
            },
            None => Err(()),
        },
        ParsedRequest::Partial => Ok(None),
        ParsedRequest::Invalid => Err(()),
    }
}

/// The path of the URL that `input` refers to, resolved against `base` as
/// the `url` crate does (`Url::parse` of the base, `join`, then `path`).
pub uninterp spec fn url_join_path(base: Seq<char>, input: Seq<char>) -> Option<Seq<char>>;

/// Wraps `url::Url::parse(base)`, `Url::join(input)` and `Url::path`: the
/// path of `input` resolved against `base`, or `None` when either does not
/// parse. The result is named by [`url_join_path`]; nothing more is stated.
#[verifier::external_body]
fn join_path(base: &str, input: &str) -> (r: Option<String>)
    ensures
        match r {
            Some(p) => url_join_path(base@, input@) == Some(p@),
            None => url_join_path(base@, input@) is None,
        },
{
    url::Url::parse(base).ok().and_then(|b| b.join(input).ok()).map(|u| u.path().to_owned())
}

/// The base that request paths are resolved against.
pub const REQUEST_BASE: &'static str = "http://localhost/";

pub open spec fn request_base() -> Seq<char> {
    REQUEST_BASE@
}

/// Which stream a request path asks for.
pub enum MountMatch {
    /// The path does not resolve to a URL.
    BadUrl,
    /// No stream's mount ends the resolved path, given here.
    Unknown(String),
    /// The first stream whose mount ends the resolved path.
    Stream(usize),
}

/// The first stream, in configuration order, whose mount ends `mount`.
pub open spec fn first_mount(mount: Seq<char>, streams: Seq<StreamConfig>) -> Option<int> {
    if exists|i: int| 0 <= i < streams.len() && ends_with_spec(mount, (#[trigger] streams[i]).mount@) {
        Some(choose|i: int|
            0 <= i < streams.len() && ends_with_spec(mount, (#[trigger] streams[i]).mount@) && forall|j: int|
                0 <= j < i ==> !ends_with_spec(mount, (#[trigger] streams[j]).mount@))
    } else {
        None
    }
}

proof fn lemma_first_mount(mount: Seq<char>, s: Seq<StreamConfig>, k: int)
    requires
        0 <= k < s.len(),
        ends_with_spec(mount, s[k].mount@),
        forall|j: int| 0 <= j < k ==> !ends_with_spec(mount, (#[trigger] s[j]).mount@),
    ensures
        first_mount(mount, s) == Some(k),
{
    let i = choose|i: int|
        0 <= i < s.len() && ends_with_spec(mount, (#[trigger] s[i]).mount@) && forall|j: int|
            0 <= j < i ==> !ends_with_spec(mount, (#[trigger] s[j]).mount@);
    assert(0 <= k < s.len() && ends_with_spec(mount, s[k].mount@) && forall|j: int|
        0 <= j < k ==> !ends_with_spec(mount, (#[trigger] s[j]).mount@));
    if i < k {
        assert(!ends_with_spec(mount, s[i].mount@));
    }
    if i > k {
        assert(!ends_with_spec(mount, s[k].mount@));
    }
}

/// Finds the stream a listener's request path asks for.
pub fn find_mount(path: &str, streams: &Vec<StreamConfig>) -> (m: MountMatch)
    ensures
        mount_matches(url_join_path(request_base(), path@), streams@, m),
{
    match_mount(join_path(REQUEST_BASE, path), streams)
}

/// Which stream a resolved request path asks for: `None` when the path
/// did not resolve; otherwise the first stream whose mount ends it, if any.
pub open spec fn mount_matches(joined: Option<Seq<char>>, streams: Seq<StreamConfig>, m: MountMatch) -> bool {
    match joined {
        None => m is BadUrl,
        Some(mount) => match first_mount(mount, streams) {
            Some(i) => m matches MountMatch::Stream(k) && k == i,
            None => m matches MountMatch::Unknown(s) && s@ == mount,
        },
    }
}

/// Which stream a resolved request path asks for (see [`mount_matches`]).
pub fn match_mount(joined: Option<String>, streams: &Vec<StreamConfig>) -> (m: MountMatch)
    ensures
        mount_matches(
            match joined {
                Some(j) => Some(j@),
                None => None,
            },
            streams@,
            m,
        ),
{
    let ghost jv: Option<Seq<char>> = match &joined {
        Some(j) => Some(j@),
        None => None,
    };
    let mount = match joined {
        Some(m) => m,
        None => return MountMatch::BadUrl,
    };
    let mut k: usize = 0;
    while k < streams.len()
        invariant
            jv == Some(mount@),
            jv == (match joined {
                Some(j) => Some(j@),
                None => None,
            }),
            k <= streams@.len(),
            forall|j: int| 0 <= j < k ==> !ends_with_spec(mount@, (#[trigger] streams@[j]).mount@),
        decreases streams@.len() - k,
    {
        if ends_with(mount.as_str(), streams[k].mount.as_str()) {
            proof {
                lemma_first_mount(mount@, streams@, k as int);
            }
            return MountMatch::Stream(k);
        }
        k = k + 1;
    }
    proof {
        let s = streams@;
        assert(!(exists|i: int| 0 <= i < s.len() && ends_with_spec(mount@, (#[trigger] s[i]).mount@)));
    }
    MountMatch::Unknown(mount)
}

/// Whether a piece of a stream goes to a listener: frames go to everyone,
/// headers and trailers only to MPD.
pub fn should_forward(data: &BufferData, agent: Agent) -> (r: bool)
    ensures
        r == (data is Frame || agent == Agent::MPD),
{
    data.is_data() || agent == Agent::MPD
}

/// How many recent pieces a stream keeps for listeners who join late.
pub const BACK_BUFFER_LEN: usize = 256;

/// The last `n` items of `s`, or all of them when there are fewer.
pub open spec fn keep_last<T>(s: Seq<T>, n: nat) -> Seq<T> {
    if s.len() > n {
        s.subrange(s.len() - n, s.len() as int)
    } else {
        s
    }
}

/// A mount's state in the broadcaster: its configuration, the header of
/// the song playing, and the most recent pieces sent.
pub struct Stream {
    config: StreamConfig,
    header: Vec<u8>,
    buffer: VecDeque<Vec<u8>>,
}

pub open spec fn chunks_view(s: Seq<Vec<u8>>) -> Seq<Seq<u8>> {
    Seq::new(s.len(), |i: int| s[i]@)
}

impl Stream {
    pub closed spec fn spec_header(&self) -> Seq<u8> {
        self.header@
    }

    pub closed spec fn spec_config(&self) -> StreamConfig {
        self.config
    }

    pub fn config(&self) -> (c: &StreamConfig)
        ensures
            *c == self.spec_config(),
    {
        &self.config
    }

    pub closed spec fn spec_buffer(&self) -> Seq<Seq<u8>> {
        chunks_view(self.buffer@)
    }

    pub fn new(config: StreamConfig) -> (s: Stream)
        ensures
            s.spec_config() == config,
            s.spec_header() == Seq::<u8>::empty(),
            s.spec_buffer() == Seq::<Seq<u8>>::empty(),
    {
        let s = Stream { config, header: Vec::new(), buffer: VecDeque::new() };
        assert(s.spec_buffer() =~= Seq::<Seq<u8>>::empty());
        s
    }

    pub fn header(&self) -> (h: &Vec<u8>)
        ensures
            h@ == self.spec_header(),
    {
        &self.header
    }

    /// The pieces kept, oldest first.
    pub fn buffer(&self) -> (b: &VecDeque<Vec<u8>>)
        ensures
            chunks_view(b@) == self.spec_buffer(),
    {
        &self.buffer
    }

    /// Keeps a piece just sent: it joins the back buffer, which keeps only
    /// the most recent [`BACK_BUFFER_LEN`]; a header also becomes the
    /// stream's header.
    pub fn record(&mut self, data: BufferData)
        ensures
            final(self).spec_config() == old(self).spec_config(),
            final(self).spec_buffer() == keep_last(
                old(self).spec_buffer().push(data.bytes()),
                BACK_BUFFER_LEN as nat,
            ),
            final(self).spec_header() == match data {
                BufferData::Header(h) => h@,
                _ => old(self).spec_header(),
            },
    {
        let copy = to_vec(data.frame());
        let ghost full = chunks_view(self.buffer@).push(data.bytes());
        self.buffer.push_back(copy);
        proof {
            assert(chunks_view(self.buffer@) =~= full);
        }
        while self.buffer.len() > BACK_BUFFER_LEN
            invariant
                full.len() > BACK_BUFFER_LEN ==> chunks_view(self.buffer@) == full.subrange(
                    full.len() - self.buffer@.len(),
                    full.len() as int,
                ) && self.buffer@.len() >= BACK_BUFFER_LEN,
                full.len() <= BACK_BUFFER_LEN ==> chunks_view(self.buffer@) == full,
                self.buffer@.len() <= full.len(),
                self.config == old(self).config,
                self.header == old(self).header,
            decreases self.buffer@.len(),
        {
            let ghost b0 = chunks_view(self.buffer@);
            let ghost n0 = self.buffer@.len();
            let _ = self.buffer.pop_front();
            proof {
                assert(b0.len() == n0);
                assert(self.buffer@.len() == n0 - 1);
                assert(full.len() > BACK_BUFFER_LEN);
                assert(b0 == full.subrange(full.len() - n0, full.len() as int));
                assert(chunks_view(self.buffer@) =~= b0.subrange(1, b0.len() as int));
                assert(full.subrange(full.len() - self.buffer@.len(), full.len() as int) =~= b0.subrange(
                    1,
                    b0.len() as int,
                ));
            }
        }
        match data {
            BufferData::Header(h) => {
                self.header = h;
            },
            _ => {},
        }
    }
}

/// A copy of `s`.
fn to_vec(s: &[u8]) -> (v: Vec<u8>)
    ensures
        v@ == s@,
{
    let mut v: Vec<u8> = Vec::new();
    let mut k: usize = 0;
    while k < s.len()
        invariant
            k <= s@.len(),
            v@ == s@.subrange(0, k as int),
        decreases s@.len() - k,
    {
        v.push(s[k]);
        k = k + 1;
        proof {
            assert(v@ =~= s@.subrange(0, k as int));
        }
    }
    proof {
        assert(s@.subrange(0, s@.len() as int) =~= s@);
    }
    v
}

} // verus!

verus! {

/// What one write of framed data does to the framing of anything after it.
pub proof fn lemma_write_then(c0: ChunkerView, c1: ChunkerView, d: Seq<u8>, s: int, t: Seq<u8>, d2: Seq<u8>)
    requires
        0 <= s <= d.len(),
        framed(c0, d) == t + framed(c1, d.subrange(s, d.len() as int)),
        fin(c1, d.subrange(s, d.len() as int)) == fin(c0, d),
    ensures
        framed(c0, d + d2) == t + framed(c1, d.subrange(s, d.len() as int) + d2),
        fin(c1, d.subrange(s, d.len() as int) + d2) == fin(c0, d + d2),
{
    let r = d.subrange(s, d.len() as int);
    lemma_framed_concat(c0, d, d2);
    lemma_framed_concat(c1, r, d2);
    lemma_fin_concat(c0, d, d2);
    lemma_fin_concat(c1, r, d2);
    assert(t + (framed(c1, r) + framed(fin(c1, r), d2)) =~= (t + framed(c1, r)) + framed(fin(c0, d), d2));
}

/// Where framing ends up after two pieces is where framing the second ends
/// up from where the first left off.
pub proof fn lemma_fin_concat(st: ChunkerView, d1: Seq<u8>, d2: Seq<u8>)
    ensures
        fin(st, d1 + d2) == fin(fin(st, d1), d2),
    decreases d1.len(), chunker_rank(st),
{
    match st {
        ChunkerView::Header(_) => {
            lemma_fin_concat(ChunkerView::Body(0), d1, d2);
        },
        ChunkerView::Body(i) => {
            let room = CHUNK_SIZE - i;
            let d = d1 + d2;
            if i >= CHUNK_SIZE {
            } else if d1.len() < room {
                let j = (i + d1.len()) as nat;
                if d.len() >= room {
                    assert(d2.subrange(CHUNK_SIZE - j, d2.len() as int) =~= d.subrange(room as int, d.len() as int));
                }
            } else {
                let r1 = d1.subrange(room as int, d1.len() as int);
                lemma_fin_concat(ChunkerView::Footer(chunk_footer()), r1, d2);
                assert(d.subrange(room as int, d.len() as int) =~= r1 + d2);
            }
        },
        ChunkerView::Footer(_) => {
            lemma_fin_concat(ChunkerView::Header(chunk_header()), d1, d2);
        },
    }
}

} // verus!

verus! {

/// How many bytes may wait for a slow listener; beyond that the oldest go.
pub const CLIENT_BUFFER_LEN: usize = 16384;

/// The outcome of one attempt to send a listener's waiting bytes.
pub enum WR {
    /// Everything went out.
    Done,
    /// This many bytes went out.
    Inc(usize),
    /// The connection would block; nothing went out.
    Blocked,
    /// The connection failed.
    Failed,
}

/// Wraps `VecDeque::as_slices`: the deque's contents as two slices, in
/// order, as its documentation says. Where the split falls depends on how
/// the deque's storage is laid out, so nothing is stated of it.
#[verifier::external_body]
fn deque_as_slices<'a>(d: &'a VecDeque<u8>) -> (r: (&'a [u8], &'a [u8]))
    ensures
        r.0@ + r.1@ == d@,
{
    d.as_slices()
}

/// A listener of one mount: its connection, the bytes still waiting to go
/// out to it, and where the chunked framing stands.
pub struct Client<C: Conn> {
    conn: Wire<C>,
    buffer: VecDeque<u8>,
    agent: Agent,
    chunker: Chunker,
}

/// How many data bytes a write attempt sent.
pub open spec fn wr_count(r: WR, len: nat) -> nat {
    match r {
        WR::Done => len,
        WR::Inc(a) => a as nat,
        _ => 0,
    }
}

impl<C: Conn> Client<C> {
    pub closed spec fn spec_conn(&self) -> Wire<C> {
        self.conn
    }

    pub closed spec fn spec_buffer(&self) -> Seq<u8> {
        self.buffer@
    }

    pub closed spec fn spec_agent(&self) -> Agent {
        self.agent
    }

    pub closed spec fn spec_chunker(&self) -> ChunkerView {
        self.chunker@
    }

    /// The bytes this listener is still owed on its connection: the waiting
    /// data, framed from where the framing stands.
    pub open spec fn owed(&self) -> Seq<u8> {
        framed(self.spec_chunker(), self.spec_buffer())
    }

    /// Where the framing ends up once everything owed is sent.
    pub open spec fn owed_end(&self) -> ChunkerView {
        fin(self.spec_chunker(), self.spec_buffer())
    }

    pub closed spec fn wf(&self) -> bool {
        &&& self.chunker.wf()
        &&& self.buffer@.len() <= CLIENT_BUFFER_LEN
    }

    /// A listener with nothing waiting, about to open its first chunk.
    pub fn new(conn: C, agent: Agent) -> (c: Client<C>)
        ensures
            c.wf(),
            c.spec_conn().inner() == conn,
            c.spec_conn().written() == Seq::<u8>::empty(),
            c.spec_conn().offered() == Seq::<Seq<u8>>::empty(),
            c.spec_conn().outcomes() == Seq::<Result<usize, IoFailure>>::empty(),
            c.spec_agent() == agent,
            c.spec_buffer() == Seq::<u8>::empty(),
            c.spec_chunker() == ChunkerView::Header(chunk_header()),
    {
        Client { conn: Wire::new(conn), buffer: VecDeque::new(), chunker: Chunker::new(), agent }
    }

    pub fn agent(&self) -> (a: Agent)
        ensures
            a == self.spec_agent(),
    {
        self.agent
    }

    pub fn conn(&self) -> (c: &C)
        ensures
            *c == self.spec_conn().inner(),
    {
        self.conn.conn()
    }

    /// Sends the response head announcing the stream, in one write of the
    /// whole head. Anything short of all of it going out is a failure.
    pub fn write_resp(&mut self, name: &str, config: &StreamConfig) -> (r: Result<(), ()>)
        ensures
            final(self).spec_buffer() == old(self).spec_buffer(),
            final(self).spec_chunker() == old(self).spec_chunker(),
            final(self).spec_agent() == old(self).spec_agent(),
            final(self).wf() == old(self).wf(),
            final(self).spec_conn().written().len() >= old(self).spec_conn().written().len(),
            final(self).spec_conn().written().subrange(0, old(self).spec_conn().written().len() as int)
                == old(self).spec_conn().written(),
            final(self).spec_conn().offered() == old(self).spec_conn().offered().push(
                encode_utf8(response_head(name@, *config)),
            ),
            final(self).spec_conn().outcomes() == old(self).spec_conn().outcomes().push(
                final(self).spec_conn().outcomes().last(),
            ),
            r is Ok <==> final(self).spec_conn().outcomes().last() == Ok::<usize, IoFailure>(
                encode_utf8(response_head(name@, *config)).len() as usize,
            ),
            r is Ok <==> final(self).spec_conn().written() == old(self).spec_conn().written() + encode_utf8(
                response_head(name@, *config),
            ),
    {
        proof {
            lemma_response_head_bytes(name@, *config);
        }
        let data = response_head_text(name, config);
        let bytes = data.as_str().as_bytes();
        let ghost w0 = self.conn.written();
        proof {
            assert(bytes@ == encode_utf8(response_head(name@, *config)));
            assert(bytes@.len() as usize == bytes.len());
        }
        match self.conn.write(bytes) {
            Ok(a) => {
                if a == 0 {
                    proof {
                        if self.conn.written() == w0 + bytes@ {
                            assert(bytes@.subrange(0, 0) =~= Seq::<u8>::empty());
                            assert(w0 + bytes@.subrange(0, 0) =~= w0);
                            assert((w0 + bytes@).len() == w0.len() + bytes@.len());
                        }
                    }
                    Err(())
                } else if a == bytes.len() {
                    proof {
                        assert(bytes@.subrange(0, a as int) =~= bytes@);
                    }
                    Ok(())
                } else {
                    proof {
                        assert((w0 + bytes@.subrange(0, a as int)).len() < (w0 + bytes@).len());
                    }
                    Err(())
                }
            },
            Err(_) => {
                proof {
                    if self.conn.written() == w0 + bytes@ {
                        assert((w0 + bytes@).len() == w0.len() + bytes@.len());
                    }
                }
                Err(())
            },
        }
    }

    /// Sends what can be sent of the waiting bytes, in one pass over them.
    fn write_buffer(&mut self) -> (r: WR)
        requires
            old(self).wf(),
        ensures
            final(self).wf(),
            final(self).spec_buffer() == old(self).spec_buffer(),
            final(self).spec_agent() == old(self).spec_agent(),
            wr_count(r, old(self).spec_buffer().len()) <= old(self).spec_buffer().len(),
            final(self).spec_conn().written().len() >= old(self).spec_conn().written().len(),
            final(self).spec_conn().written().subrange(0, old(self).spec_conn().written().len() as int)
                == old(self).spec_conn().written(),
            !(r is Failed) ==> {
                let b = old(self).spec_buffer();
                let k = wr_count(r, b.len()) as int;
                &&& old(self).owed() == final(self).spec_conn().written().subrange(
                    old(self).spec_conn().written().len() as int,
                    final(self).spec_conn().written().len() as int,
                ) + framed(final(self).spec_chunker(), b.subrange(k, b.len() as int))
                &&& fin(final(self).spec_chunker(), b.subrange(k, b.len() as int)) == old(self).owed_end()
            },
            records_extend(old(self).state(), final(self).state()),
            outcomes_grew(old(self).spec_conn().outcomes(), final(self).spec_conn().outcomes()),
            r is Failed ==> write_failed(old(self).state(), final(self).state()),
            r is Blocked ==> write_stalled(old(self).state(), final(self).state()),
            (r matches WR::Inc(a) && a == 0) ==> write_stalled(old(self).state(), final(self).state()),
    {
        let ghost w0 = self.conn.written();
        let ghost o0 = self.conn.outcomes();
        let ghost f0 = self.conn.offered();
        let ghost c0 = self.chunker@;
        let ghost b = self.buffer@;
        let (head, tail) = deque_as_slices(&self.buffer);
        let ghost h = head@;
        let ghost t = tail@;
        let r1 = self.chunker.write(&mut self.conn, head);
        let ghost wm = self.conn.written();
        let ghost c1 = self.chunker@;
        proof {
            lemma_write_then(c0, c1, h, sent_count(r1) as int, wm.subrange(w0.len() as int, wm.len() as int), t);
            assert(h.subrange(sent_count(r1) as int, h.len() as int) + t =~= b.subrange(
                sent_count(r1) as int,
                b.len() as int,
            ));
        }
        match r1 {
            Ok(Some(a)) => {
                if a == 0 {
                    WR::Failed
                } else if a == head.len() {
                    let ghost om = self.conn.outcomes();
                    let ghost fm = self.conn.offered();
                    let r2 = self.chunker.write(&mut self.conn, tail);
                    proof {
                        lemma_outcomes_grew_trans(o0, om, self.conn.outcomes());
                        lemma_outcomes_grew_trans(f0, fm, self.conn.offered());
                        let w1 = self.conn.written();
                        let c2 = self.chunker@;
                        let s2 = sent_count(r2) as int;
                        assert(wm =~= w0 + wm.subrange(w0.len() as int, wm.len() as int)) by {
                            assert(wm.subrange(0, w0.len() as int) == w0);
                        }
                        lemma_extend(w0, wm.subrange(w0.len() as int, wm.len() as int), wm, w1);
                        assert(h.subrange(a as int, h.len() as int) + t =~= t);
                        assert(b.subrange(a + s2, b.len() as int) =~= t.subrange(s2, t.len() as int));
                        let x = wm.subrange(w0.len() as int, wm.len() as int);
                        let y = w1.subrange(wm.len() as int, w1.len() as int);
                        assert(x + (y + framed(c2, t.subrange(s2, t.len() as int))) =~= (x + y) + framed(
                            c2,
                            t.subrange(s2, t.len() as int),
                        ));
                        assert(b.subrange(b.len() as int, b.len() as int) =~= t.subrange(t.len() as int, t.len() as int));
                    }
                    match r2 {
                        Ok(Some(i)) => {
                            if i == 0 {
                                WR::Failed
                            } else if i == tail.len() {
                                WR::Done
                            } else {
                                WR::Inc(i + a)
                            }
                        },
                        Ok(None) => WR::Inc(a),
                        Err(IoFailure::WouldBlock) => WR::Inc(a),
                        Err(_) => WR::Failed,
                    }
                } else {
                    WR::Inc(a)
                }
            },
            Ok(None) => WR::Inc(0),
            Err(IoFailure::WouldBlock) => WR::Blocked,
            Err(_) => WR::Failed,
        }
    }
}

/// The state of a listener that the flush and send contracts speak of:
/// what its connection took, the bytes offered to each write made to it and
/// each write's outcome, what waits, and where the framing stands.
pub struct ClientState {
    pub written: Seq<u8>,
    pub offered: Seq<Seq<u8>>,
    pub outcomes: Seq<Result<usize, IoFailure>>,
    pub buffer: Seq<u8>,
    pub chunker: ChunkerView,
}

/// `s1` is `s0` followed by more.
pub open spec fn extends<T>(s0: Seq<T>, s1: Seq<T>) -> bool {
    s1.len() >= s0.len() && s1.subrange(0, s0.len() as int) == s0
}

/// From `s0` to `s1` the connection's records only grew: its bytes, and
/// its writes, each with the bytes offered and the outcome.
pub open spec fn records_extend(s0: ClientState, s1: ClientState) -> bool {
    &&& extends(s0.written, s1.written)
    &&& extends(s0.offered, s1.offered)
    &&& extends(s0.outcomes, s1.outcomes)
    &&& s1.offered.len() + s0.outcomes.len() == s1.outcomes.len() + s0.offered.len()
}

/// From `s0` to `s1` at least one write was made, and the last one took
/// nothing or failed outright.
pub open spec fn write_failed(s0: ClientState, s1: ClientState) -> bool {
    &&& outcomes_grew(s0.outcomes, s1.outcomes)
    &&& {
        ||| s1.outcomes.last() == Ok::<usize, IoFailure>(0)
        ||| s1.outcomes.last() == Err::<usize, IoFailure>(IoFailure::Other)
    }
}

/// From `s0` to `s1` at least one write was made, and the last one would
/// have blocked or took less than it was offered.
pub open spec fn write_stalled(s0: ClientState, s1: ClientState) -> bool {
    &&& outcomes_grew(s0.outcomes, s1.outcomes)
    &&& {
        ||| s1.outcomes.last() == Err::<usize, IoFailure>(IoFailure::WouldBlock)
        ||| (s1.outcomes.last() matches Ok(n) && n < s1.offered.last().len())
    }
}

proof fn lemma_extends_trans<T>(a: Seq<T>, b: Seq<T>, c: Seq<T>)
    requires
        extends(a, b),
        extends(b, c),
    ensures
        extends(a, c),
{
    assert(c.subrange(0, a.len() as int) =~= a) by {
        assert forall|k: int| 0 <= k < a.len() implies c[k] == a[k] by {
            assert(c[k] == c.subrange(0, b.len() as int)[k]);
            assert(b[k] == b.subrange(0, a.len() as int)[k]);
        }
    }
}

/// Records that grew twice grew once.
proof fn lemma_records_trans(s0: ClientState, s1: ClientState, s2: ClientState)
    requires
        records_extend(s0, s1),
        records_extend(s1, s2),
    ensures
        records_extend(s0, s2),
{
    lemma_extends_trans(s0.written, s1.written, s2.written);
    lemma_extends_trans(s0.offered, s1.offered, s2.offered);
    lemma_extends_trans(s0.outcomes, s1.outcomes, s2.outcomes);
}

/// What [`Client::flush_buffer`] does, from `s0` to `s1` with result `r`:
/// the connection's records only grow; what waits afterwards is what
/// waited, less some of its oldest bytes; and unless the connection failed,
/// what the connection took followed by what is still owed is exactly what
/// was owed. `Ok(true)` means nothing waits any more; `Ok(false)` comes of a
/// write that would block or fell short, and `Err` of one that took nothing
/// or failed.
pub open spec fn flush_post(s0: ClientState, s1: ClientState, r: Result<bool, ()>) -> bool {
    &&& records_extend(s0, s1)
    &&& s1.buffer.len() <= s0.buffer.len()
    &&& s1.buffer == s0.buffer.subrange(s0.buffer.len() - s1.buffer.len(), s0.buffer.len() as int)
    &&& r is Ok ==> {
        &&& framed(s0.chunker, s0.buffer) == s1.written.subrange(s0.written.len() as int, s1.written.len() as int)
            + framed(s1.chunker, s1.buffer)
        &&& fin(s1.chunker, s1.buffer) == fin(s0.chunker, s0.buffer)
    }
    &&& r matches Ok(true) ==> s1.buffer.len() == 0
    &&& r == Ok::<bool, ()>(false) ==> write_stalled(s0, s1)
    &&& r is Err ==> write_failed(s0, s1)
}

/// The waiting bytes after `data` joins them: the most recent
/// [`CLIENT_BUFFER_LEN`] of them.
pub open spec fn queued(b: Seq<u8>, data: Seq<u8>) -> Seq<u8> {
    keep_last(b + data, CLIENT_BUFFER_LEN as nat)
}

/// What [`Client::send_data`] does after its flush, from `s1` (flush result
/// `fr`) to `s2` with result `r`: a failed flush fails; a flush that left
/// bytes waiting queues `data` behind them; otherwise `data` goes to the
/// framing, as [`chunk_run`] says of the writes made, and what does not go
/// out is queued. When only part went out, it is that part that is queued.
pub open spec fn send_post(s1: ClientState, fr: Result<bool, ()>, data: Seq<u8>, s2: ClientState, r: Result<(), ()>) -> bool {
    match fr {
        Err(_) => r is Err && s2 == s1,
        Ok(false) => {
            &&& r is Ok
            &&& s2.written == s1.written
            &&& s2.offered == s1.offered
            &&& s2.outcomes == s1.outcomes
            &&& s2.chunker == s1.chunker
            &&& s2.buffer == queued(s1.buffer, data)
        },
        Ok(true) => {
            let t = s2.written.subrange(s1.written.len() as int, s2.written.len() as int);
            let answers = s2.outcomes.subrange(s1.outcomes.len() as int, s2.outcomes.len() as int);
            let offers = s2.offered.subrange(s1.offered.len() as int, s2.offered.len() as int);
            let run = chunk_run(s1.chunker, data, answers);
            &&& extends(s1.written, s2.written)
            &&& extends(s1.offered, s2.offered)
            &&& extends(s1.outcomes, s2.outcomes)
            &&& run is Some
            &&& run.unwrap().0 == offers
            &&& run.unwrap().2 == s2.chunker
            &&& sent_count(run.unwrap().1) <= data.len()
            &&& framed(s1.chunker, data) == t + framed(
                s2.chunker,
                data.subrange(sent_count(run.unwrap().1) as int, data.len() as int),
            )
            &&& send_outcome(run.unwrap().1, data, s1.buffer, s2.buffer, r)
            &&& r is Err ==> write_failed(s1, s2)
        },
    }
}

/// What sending `data` to a listener in state `s0` may do, ending in `s2`
/// with result `r`: nothing, for no data; else a flush of what waits, then
/// what [`send_post`] says.
pub open spec fn sent(s0: ClientState, data: Seq<u8>, s2: ClientState, r: Result<(), ()>) -> bool {
    if data.len() == 0 {
        r is Ok && s2 == s0
    } else {
        exists|s1: ClientState, fr: Result<bool, ()>|
            #[trigger] flush_post(s0, s1, fr) && send_post(s1, fr, data, s2, r)
    }
}

/// What sending `pieces` one after the other may do, from `s0` to `s2` with
/// result `r`: the sending stops at the first piece that fails.
pub open spec fn sent_all(s0: ClientState, pieces: Seq<Seq<u8>>, s2: ClientState, r: Result<(), ()>) -> bool
    decreases pieces.len(),
{
    if pieces.len() == 0 {
        r is Ok && s2 == s0
    } else {
        ||| r is Err && sent_all(s0, pieces.drop_last(), s2, r)
        ||| exists|s1: ClientState|
            sent_all(s0, pieces.drop_last(), s1, Ok(())) && #[trigger] sent(s1, pieces.last(), s2, r)
    }
}

/// How the outcome of framing `data` decides the result and the waiting bytes.
pub open spec fn send_outcome(
    cw: Result<Option<usize>, IoFailure>,
    data: Seq<u8>,
    b1: Seq<u8>,
    b2: Seq<u8>,
    r: Result<(), ()>,
) -> bool {
    match cw {
        Ok(Some(a)) => if a == 0 {
            r is Err && b2 == b1
        } else if a == data.len() {
            r is Ok && b2 == b1
        } else {
            r is Ok && b2 == queued(b1, data.subrange(0, a as int))
        },
        Ok(None) => r is Ok && b2 == queued(b1, data),
        Err(IoFailure::WouldBlock) => r is Ok && b2 == queued(b1, data),
        Err(IoFailure::Other) => r is Err && b2 == b1,
    }
}

impl<C: Conn> Client<C> {
    pub open spec fn state(&self) -> ClientState {
        ClientState {
            written: self.spec_conn().written(),
            offered: self.spec_conn().offered(),
            outcomes: self.spec_conn().outcomes(),
            buffer: self.spec_buffer(),
            chunker: self.spec_chunker(),
        }
    }

    /// Tries to send everything waiting. `Ok(false)` means the connection
    /// is not taking more for now; `Err` that it failed (see
    /// [`flush_post`]).
    pub fn flush_buffer(&mut self) -> (r: Result<bool, ()>)
        requires
            old(self).wf(),
        ensures
            final(self).wf(),
            final(self).spec_agent() == old(self).spec_agent(),
            flush_post(old(self).state(), final(self).state(), r),
    {
        let ghost s0 = self.state();
        let ghost a0 = self.agent;
        proof {
            assert(s0.offered.subrange(0, s0.offered.len() as int) =~= s0.offered);
            assert(s0.outcomes.subrange(0, s0.outcomes.len() as int) =~= s0.outcomes);
        }
        if self.buffer.len() == 0 {
            proof {
                lemma_nothing_taken(s0.written, s0.written);
                assert(s0.buffer.subrange(0, 0) =~= s0.buffer);
            }
            return Ok(true);
        }
        proof {
            lemma_nothing_taken(s0.written, s0.written);
            assert(s0.buffer.subrange(0, s0.buffer.len() as int) =~= s0.buffer);
        }
        loop
            invariant
                self.wf(),
                self.agent == a0,
                a0 == old(self).spec_agent(),
                s0 == old(self).state(),
                records_extend(s0, self.state()),
                self.buffer@.len() <= s0.buffer.len(),
                self.buffer@ == s0.buffer.subrange(s0.buffer.len() - self.buffer@.len(), s0.buffer.len() as int),
                framed(s0.chunker, s0.buffer) == self.state().written.subrange(
                    s0.written.len() as int,
                    self.state().written.len() as int,
                ) + framed(self.state().chunker, self.state().buffer),
                fin(self.state().chunker, self.state().buffer) == fin(s0.chunker, s0.buffer),
            decreases self.buffer@.len(),
        {
            let ghost s1 = self.state();
            let r = self.write_buffer();
            let ghost s2 = self.state();
            let ghost k = wr_count(r, s1.buffer.len()) as int;
            proof {
                lemma_records_trans(s0, s1, s2);
                let d1 = s1.written.subrange(s0.written.len() as int, s1.written.len() as int);
                let d2 = s2.written.subrange(s1.written.len() as int, s2.written.len() as int);
                assert(s1.written =~= s0.written + d1);
                lemma_extend(s0.written, d1, s1.written, s2.written);
                assert(s1.buffer.subrange(k, s1.buffer.len() as int) =~= s0.buffer.subrange(
                    s0.buffer.len() - (s1.buffer.len() - k),
                    s0.buffer.len() as int,
                ));
                if !(r is Failed) {
                    assert(d1 + (d2 + framed(s2.chunker, s1.buffer.subrange(k, s1.buffer.len() as int))) =~= (d1
                        + d2) + framed(s2.chunker, s1.buffer.subrange(k, s1.buffer.len() as int)));
                }
            }
            match r {
                WR::Done => {
                    self.buffer.clear();
                    proof {
                        assert(s1.buffer.subrange(k, s1.buffer.len() as int) =~= Seq::<u8>::empty());
                        assert(s0.buffer.subrange(s0.buffer.len() as int, s0.buffer.len() as int) =~= self.buffer@);
                    }
                    return Ok(true);
                },
                WR::Inc(a) => {
                    if a == 0 {
                        return Ok(false);
                    }
                    pop_front_n(&mut self.buffer, a);
                },
                WR::Blocked => return Ok(false),
                WR::Failed => return Err(()),
            }
        }
    }

    /// Queues `data` behind what waits, keeping only the most recent bytes.
    fn buffer_bytes(&mut self, data: &[u8])
        ensures
            final(self).spec_buffer() == queued(old(self).spec_buffer(), data@),
            final(self).spec_conn() == old(self).spec_conn(),
            final(self).spec_chunker() == old(self).spec_chunker(),
            final(self).spec_agent() == old(self).spec_agent(),
            old(self).wf() ==> final(self).wf(),
    {
        let mut k: usize = 0;
        let ghost b0 = self.buffer@;
        while k < data.len()
            invariant
                k <= data@.len(),
                self.buffer@ == b0 + data@.subrange(0, k as int),
                self.conn == old(self).conn,
                self.chunker == old(self).chunker,
                self.agent == old(self).agent,
                b0 == old(self).buffer@,
            decreases data@.len() - k,
        {
            self.buffer.push_back(data[k]);
            k = k + 1;
            proof {
                assert(self.buffer@ =~= b0 + data@.subrange(0, k as int));
            }
        }
        let ghost full = b0 + data@;
        proof {
            assert(data@.subrange(0, data@.len() as int) =~= data@);
        }
        while self.buffer.len() > CLIENT_BUFFER_LEN
            invariant
                self.buffer@.len() <= full.len(),
                self.buffer@ == full.subrange(full.len() - self.buffer@.len(), full.len() as int),
                full.len() > CLIENT_BUFFER_LEN ==> self.buffer@.len() >= CLIENT_BUFFER_LEN,
                full.len() <= CLIENT_BUFFER_LEN ==> self.buffer@.len() == full.len(),
                self.conn == old(self).conn,
                self.chunker == old(self).chunker,
                self.agent == old(self).agent,
            decreases self.buffer@.len(),
        {
            let _ = self.buffer.pop_front();
            proof {
                assert(self.buffer@ =~= full.subrange(full.len() - self.buffer@.len(), full.len() as int));
            }
        }
        proof {
            if full.len() <= CLIENT_BUFFER_LEN {
                assert(full.subrange(0, full.len() as int) =~= full);
            }
        }
    }
}

impl<C: Conn> Client<C> {
    /// Sends a piece of the stream to this listener. What waits goes first;
    /// if it cannot all go, `data` waits behind it. Otherwise `data` goes to
    /// the framing, and what could not be sent waits.
    pub fn send_data(&mut self, data: &[u8]) -> (r: Result<(), ()>)
        requires
            old(self).wf(),
        ensures
            final(self).wf(),
            final(self).spec_agent() == old(self).spec_agent(),
            sent(old(self).state(), data@, final(self).state(), r),
    {
        if data.len() == 0 {
            return Ok(());
        }
        let fr = self.flush_buffer();
        let ghost s1 = self.state();
        match fr {
            Ok(true) => {},
            Ok(false) => {
                self.buffer_bytes(data);
                return Ok(());
            },
            Err(()) => {
                return Err(());
            },
        }
        let cw = self.chunker.write(&mut self.conn, data);
        let ghost s2w = self.conn.written();
        let ghost rest = data@.subrange(sent_count(cw) as int, data@.len() as int);
        proof {
            assert(framed(s1.chunker, data@) == s2w.subrange(s1.written.len() as int, s2w.len() as int) + framed(
                self.chunker@,
                rest,
            ));
        }
        let r = match cw {
            Ok(Some(a)) => {
                if a == 0 {
                    Err(())
                } else if a == data.len() {
                    Ok(())
                } else {
                    self.buffer_bytes(slice_subrange(data, 0, a));
                    Ok(())
                }
            },
            Ok(None) => {
                self.buffer_bytes(data);
                Ok(())
            },
            Err(IoFailure::WouldBlock) => {
                self.buffer_bytes(data);
                Ok(())
            },
            Err(IoFailure::Other) => Err(()),
        };
        proof {
            assert(send_outcome(cw, data@, s1.buffer, self.state().buffer, r));
        }
        r
    }
}

/// A failure part-way through a run of pieces is the failure of the whole run.
proof fn lemma_sent_all_stops(s0: ClientState, ps: Seq<Seq<u8>>, j: int, s: ClientState)
    requires
        0 <= j <= ps.len(),
        sent_all(s0, ps.take(j), s, Err(())),
    ensures
        sent_all(s0, ps, s, Err(())),
    decreases ps.len() - j,
{
    if j == ps.len() {
        assert(ps.take(j) =~= ps);
    } else {
        assert(ps.take(j + 1).drop_last() =~= ps.take(j));
        lemma_sent_all_stops(s0, ps, j + 1, s);
    }
}

/// The pieces a listener who joins a stream is sent after the response
/// head: the stream's header, then its back buffer, oldest first.
pub open spec fn welcome_pieces(stream: &Stream) -> Seq<Seq<u8>> {
    seq![stream.spec_header()] + stream.spec_buffer()
}

/// What delivering `data` to a listener with this agent does, from `s0` to
/// `s1` with result `r`: what [`sent`] says when the piece is meant for
/// it, and nothing otherwise.
pub open spec fn delivered(agent: Agent, s0: ClientState, data: BufferData, s1: ClientState, r: Result<(), ()>) -> bool {
    if data is Frame || agent == Agent::MPD {
        sent(s0, data.bytes(), s1, r)
    } else {
        r is Ok && s1 == s0
    }
}

impl<C: Conn> Client<C> {
    /// Sends a piece of a stream to this listener if it is meant for it:
    /// frames go to everyone, headers and trailers only to MPD.
    pub fn deliver(&mut self, data: &BufferData) -> (r: Result<(), ()>)
        requires
            old(self).wf(),
        ensures
            final(self).wf(),
            final(self).spec_agent() == old(self).spec_agent(),
            delivered(old(self).spec_agent(), old(self).state(), *data, final(self).state(), r),
    {
        if should_forward(data, self.agent) {
            self.send_data(data.frame())
        } else {
            Ok(())
        }
    }

    /// Opens `stream` to this listener, who just asked for it: the
    /// response head, then [`welcome_pieces`]. The first failure ends it.
    pub fn welcome(&mut self, name: &str, stream: &Stream) -> (r: Result<(), ()>)
        requires
            old(self).wf(),
        ensures
            welcomed(*old(self), name@, *stream, *final(self), r),
    {
        let ghost s0 = self.state();
        let ghost pieces = welcome_pieces(stream);
        let wr = self.write_resp(name, stream.config());
        if wr.is_err() {
            proof {
                let head = encode_utf8(response_head(name@, stream.spec_config()));
                assert(self.state().written != s0.written + head);
            }
            return Err(());
        }
        let ghost s1 = self.state();
        let hr = self.send_data(stream.header.as_slice());
        proof {
            assert(pieces.take(1).drop_last() =~= Seq::<Seq<u8>>::empty());
            assert(pieces.take(1).last() == stream.spec_header());
            assert(sent_all(s1, pieces.take(1).drop_last(), s1, Ok(())));
            assert(sent(s1, pieces.take(1).last(), self.state(), hr));
            assert(sent_all(s1, pieces.take(1), self.state(), hr));
            match hr {
                Ok(u) => assert(hr == Ok::<(), ()>(())),
                Err(u) => assert(hr == Err::<(), ()>(())),
            }
        }
        if hr.is_err() {
            proof {
                lemma_sent_all_stops(s1, pieces, 1, self.state());
            }
            return Err(());
        }
        let n = stream.buffer.len();
        let mut k: usize = 0;
        while k < n
            invariant
                self.wf(),
                self.agent == old(self).agent,
                k <= n,
                n == stream.spec_buffer().len(),
                pieces == welcome_pieces(stream),
                s1 == (ClientState {
                    written: old(self).state().written + encode_utf8(response_head(name@, stream.spec_config())),
                    offered: old(self).state().offered.push(encode_utf8(response_head(name@, stream.spec_config()))),
                    outcomes: old(self).state().outcomes.push(
                        Ok::<usize, IoFailure>(encode_utf8(response_head(name@, stream.spec_config())).len() as usize),
                    ),
                    buffer: old(self).state().buffer,
                    chunker: old(self).state().chunker,
                }),
                sent_all(s1, pieces.take(k + 1), self.state(), Ok(())),
            decreases n - k,
        {
            let ghost sp = self.state();
            let rk = self.send_data(stream.buffer[k].as_slice());
            proof {
                assert(pieces.take(k + 2).drop_last() =~= pieces.take(k + 1));
                assert(pieces.take(k + 2).last() == stream.spec_buffer()[k as int]);
                assert(sent_all(s1, pieces.take(k + 2).drop_last(), sp, Ok(())));
                assert(sent(sp, pieces.take(k + 2).last(), self.state(), rk));
                assert(sent_all(s1, pieces.take(k + 2), self.state(), rk));
                match rk {
                    Ok(u) => assert(rk == Ok::<(), ()>(())),
                    Err(u) => assert(rk == Err::<(), ()>(())),
                }
            }
            if rk.is_err() {
                proof {
                    lemma_sent_all_stops(s1, pieces, k + 2, self.state());
                }
                return Err(());
            }
            k = k + 1;
        }
        proof {
            assert(pieces.take(n + 1) =~= pieces);
        }
        Ok(())
    }
}

/// Drops the `n` oldest bytes of `d`.
fn pop_front_n(d: &mut VecDeque<u8>, n: usize)
    requires
        n <= old(d)@.len(),
    ensures
        final(d)@ == old(d)@.subrange(n as int, old(d)@.len() as int),
{
    let mut k: usize = 0;
    while k < n
        invariant
            k <= n,
            n <= old(d)@.len(),
            d@ == old(d)@.subrange(k as int, old(d)@.len() as int),
        decreases n - k,
    {
        let _ = d.pop_front();
        k = k + 1;
        proof {
            assert(d@ =~= old(d)@.subrange(k as int, old(d)@.len() as int));
        }
    }
}

/// The response head is never empty, and neither are its bytes.
proof fn lemma_response_head_bytes(name: Seq<char>, config: StreamConfig)
    ensures
        encode_utf8(response_head(name, config)).len() > 0,
{
    let h = response_head(name, config);
    reveal_strlit("HTTP/1.1 200 OK\r\nServer: kawa/0.1.0\r\nContent-Type: ");
    assert(h.len() > 0);
    vstd::utf8::encode_utf8_decode_utf8(h);
    if encode_utf8(h).len() == 0 {
        assert(encode_utf8(h) =~= Seq::<u8>::empty());
        assert(decode_utf8(Seq::<u8>::empty()) =~= Seq::<char>::empty());
    }
}

/// The line announcing a stream's content type.
pub open spec fn content_type(c: Container) -> Seq<char> {
    match c {
        Container::MP3 => "audio/mpeg"@,
        Container::FLAC => "audio/flac"@,
        Container::AAC => "audio/aac"@,
        Container::Ogg => "audio/ogg"@,
    }
}

/// A stream's bit rate in the response head: the configured one, else 0.
pub open spec fn bitrate_text(b: Option<i64>) -> Seq<char> {
    match b {
        Some(br) => int_decimal(br as int),
        None => "0"@,
    }
}

/// The head of the response that opens a listener's stream.
pub open spec fn response_head(name: Seq<char>, config: StreamConfig) -> Seq<char> {
    "HTTP/1.1 200 OK\r\nServer: kawa/0.1.0\r\nContent-Type: "@ + content_type(config.container)
        + "\r\nTransfer-Encoding: chunked\r\nConnection: keep-alive\r\nCache-Control: no-cache\r\nx-audiocast-name: "@
        + name + "\r\nx-audiocast-bitrate: "@ + bitrate_text(config.bitrate) + "\r\nicy-name: "@ + name
        + "\r\nicy-br: "@ + bitrate_text(config.bitrate) + "\r\n\r\n"@
}

fn content_type_text(c: Container) -> (s: &'static str)
    ensures
        s@ == content_type(c),
{
    match c {
        Container::MP3 => "audio/mpeg",
        Container::FLAC => "audio/flac",
        Container::AAC => "audio/aac",
        Container::Ogg => "audio/ogg",
    }
}

fn bitrate_string(b: Option<i64>) -> (s: String)
    ensures
        s@ == bitrate_text(b),
{
    match b {
        Some(br) => i64_to_decimal(br),
        None => String::from_str("0"),
    }
}

/// The head of the response that opens a listener's stream.
pub fn response_head_text(name: &str, config: &StreamConfig) -> (s: String)
    ensures
        s@ == response_head(name@, *config),
{
    let br = bitrate_string(config.bitrate);
    let mut s = String::from_str("HTTP/1.1 200 OK\r\nServer: kawa/0.1.0\r\nContent-Type: ");
    s.append(content_type_text(config.container));
    s.append("\r\nTransfer-Encoding: chunked\r\nConnection: keep-alive\r\nCache-Control: no-cache\r\nx-audiocast-name: ");
    s.append(name);
    s.append("\r\nx-audiocast-bitrate: ");
    s.append(br.as_str());
    s.append("\r\nicy-name: ");
    s.append(name);
    s.append("\r\nicy-br: ");
    s.append(br.as_str());
    s.append("\r\n\r\n");
    s
}

} // verus!

verus! {

/// Which listeners follow which mount. A listener is known by its number;
/// mounts by their place in the configuration.
pub struct Audience {
    mounts: Vec<HashSet<usize>>,
}

impl View for Audience {
    type V = Seq<Set<usize>>;

    closed spec fn view(&self) -> Seq<Set<usize>> {
        Seq::new(self.mounts@.len(), |i: int| self.mounts@[i]@)
    }
}

impl Audience {
    /// No listeners on any of `n` mounts.
    pub fn new(n: usize) -> (a: Audience)
        ensures
            a@ == Seq::new(n as nat, |i: int| Set::<usize>::empty()),
    {
        let mut mounts: Vec<HashSet<usize>> = Vec::new();
        let mut k: usize = 0;
        while k < n
            invariant
                k <= n,
                mounts@.len() == k,
                forall|i: int| 0 <= i < k ==> (#[trigger] mounts@[i])@ == Set::<usize>::empty(),
            decreases n - k,
        {
            mounts.push(HashSet::new());
            k = k + 1;
        }
        let a = Audience { mounts };
        assert(a@ =~= Seq::new(n as nat, |i: int| Set::<usize>::empty()));
        a
    }

    /// Listener `id` now follows mount `mount`.
    pub fn join(&mut self, mount: usize, id: usize)
        requires
            mount < old(self)@.len(),
        ensures
            final(self)@ == old(self)@.update(mount as int, old(self)@[mount as int].insert(id)),
    {
        broadcast use vstd::std_specs::hash::group_hash_axioms;
        let mut set = HashSet::new();
        std::mem::swap(&mut set, &mut self.mounts[mount]);
        set.insert(id);
        self.mounts.set(mount, set);
        assert(self@ =~= old(self)@.update(mount as int, old(self)@[mount as int].insert(id)));
    }

    /// Listener `id` follows no mount any more.
    pub fn leave(&mut self, id: usize)
        ensures
            final(self)@ == Seq::new(old(self)@.len(), |i: int| old(self)@[i].remove(id)),
    {
        broadcast use vstd::std_specs::hash::group_hash_axioms;
        let n = self.mounts.len();
        let mut k: usize = 0;
        while k < n
            invariant
                k <= n,
                n == old(self)@.len(),
                self@.len() == n,
                forall|i: int| 0 <= i < k ==> (#[trigger] self@[i]) == old(self)@[i].remove(id),
                forall|i: int| k <= i < n ==> (#[trigger] self@[i]) == old(self)@[i],
            decreases n - k,
        {
            let ghost pm = self.mounts@;
            let ghost pv = self@;
            let mut set = HashSet::new();
            std::mem::swap(&mut set, &mut self.mounts[k]);
            set.remove(&id);
            self.mounts.set(k, set);
            proof {
                assert(pv[k as int] == pm[k as int]@);
                assert forall|i: int| 0 <= i < n implies #[trigger] self@[i] == if i <= k {
                    old(self)@[i].remove(id)
                } else {
                    old(self)@[i]
                } by {
                    assert(self@[i] == self.mounts@[i]@);
                    assert(pv[i] == pm[i]@);
                    if i != k {
                        assert(self.mounts@[i] == pm[i]);
                    }
                }
            }
            k = k + 1;
        }
        assert(self@ =~= Seq::new(old(self)@.len(), |i: int| old(self)@[i].remove(id)));
    }

    /// The listeners of mount `mount`, each once, in no particular order.
    pub fn listeners(&self, mount: usize) -> (r: Vec<usize>)
        requires
            mount < self@.len(),
        ensures
            r@.to_set() == self@[mount as int],
            r@.no_duplicates(),
    {
        broadcast use vstd::std_specs::hash::group_hash_axioms;
        let set = &self.mounts[mount];
        let mut out: Vec<usize> = Vec::new();
        for x in it: set.iter()
            invariant
                it.seq() == spec_hash_keys_iter(set).remaining(),
                out@.len() == it.index(),
                forall|i: int| 0 <= i < it.index() ==> out@[i] == *it.seq()[i],
        {
            out.push(*x);
        }
        proof {
            let keys = spec_hash_keys_iter(set).remaining();
            assert(out@ =~= keys.unref());
        }
        out
    }
}

} // verus!

verus! {

/// The state of the broadcaster: the listeners by number, the mount each
/// follows, and the streams with what they keep for late joiners.
pub struct Broadcaster<C: Conn> {
    clients: HashMap<usize, Client<C>>,
    client_mounts: Audience,
    streams: Vec<Stream>,
    name: String,
}

/// The configurations of these streams.
pub open spec fn configs_of(streams: Seq<Stream>) -> Seq<StreamConfig> {
    Seq::new(streams.len(), |i: int| streams[i].spec_config())
}

/// What [`Client::welcome`] does, from `c0` to `c1` with result `r`, for a
/// station called `name` opening `stream`: one write offered the whole
/// response head, and either it did not all go out and that is the end of
/// it, or it did and the pieces of [`welcome_pieces`] follow.
pub open spec fn welcomed<C: Conn>(c0: Client<C>, name: Seq<char>, stream: Stream, c1: Client<C>, r: Result<(), ()>) -> bool {
    let s0 = c0.state();
    let head = encode_utf8(response_head(name, stream.spec_config()));
    let s1 = ClientState {
        written: s0.written + head,
        offered: s0.offered.push(head),
        outcomes: s0.outcomes.push(Ok::<usize, IoFailure>(head.len() as usize)),
        buffer: s0.buffer,
        chunker: s0.chunker,
    };
    let s2 = c1.state();
    &&& c1.wf()
    &&& c1.spec_agent() == c0.spec_agent()
    &&& {
        ||| {
            &&& r is Err
            &&& s2.buffer == s0.buffer
            &&& s2.chunker == s0.chunker
            &&& extends(s0.written, s2.written)
            &&& s2.offered == s0.offered.push(head)
            &&& s2.outcomes == s0.outcomes.push(s2.outcomes.last())
            &&& s2.outcomes.last() != Ok::<usize, IoFailure>(head.len() as usize)
        }
        ||| sent_all(s1, welcome_pieces(&stream), s2, r)
    }
}

/// The numbers of the listeners handed back.
pub open spec fn gone_ids<C: Conn>(gone: Seq<(usize, Client<C>)>) -> Set<usize> {
    Set::new(|x: usize| exists|j: int| 0 <= j < gone.len() && gone[j].0 == x)
}

/// The streams after mount `m`'s stream keeps `data`; the others are left
/// alone.
pub open spec fn recorded(s0: Seq<Stream>, m: int, data: BufferData, s1: Seq<Stream>) -> bool {
    &&& s1.len() == s0.len()
    &&& forall|i: int| 0 <= i < s0.len() && i != m ==> #[trigger] s1[i] == s0[i]
    &&& s1[m].spec_config() == s0[m].spec_config()
    &&& s1[m].spec_buffer() == keep_last(s0[m].spec_buffer().push(data.bytes()), BACK_BUFFER_LEN as nat)
    &&& s1[m].spec_header() == match data {
        BufferData::Header(h) => h@,
        _ => s0[m].spec_header(),
    }
}

/// Every mount's listeners, less `id`.
pub open spec fn without(mounts: Seq<Set<usize>>, id: usize) -> Seq<Set<usize>> {
    Seq::new(mounts.len(), |i: int| mounts[i].remove(id))
}

/// What a flush of listener `id` did to the broadcaster, from `b0` to `b1`,
/// when the flush ended with `r` and left the listener in state `s`: a
/// failed listener is removed and handed back; otherwise it stays, in that
/// state, and nothing else changes.
pub open spec fn flushed<C: Conn>(
    b0: Broadcaster<C>,
    b1: Broadcaster<C>,
    id: usize,
    r: Result<bool, ()>,
    s: ClientState,
    gone: Option<Client<C>>,
) -> bool {
    match r {
        Err(_) => {
            &&& gone matches Some(x) && x.state() == s
            &&& b1.spec_clients() == b0.spec_clients().remove(id)
            &&& b1.spec_mounts() == without(b0.spec_mounts(), id)
        },
        Ok(_) => {
            &&& gone is None
            &&& b1.spec_clients().dom() == b0.spec_clients().dom()
            &&& b1.spec_clients()[id].state() == s
            &&& b1.spec_clients()[id].spec_agent() == b0.spec_clients()[id].spec_agent()
            &&& b1.spec_mounts() == b0.spec_mounts()
            &&& forall|j: usize|
                j != id && #[trigger] b0.spec_clients().contains_key(j) ==> b1.spec_clients()[j]
                    == b0.spec_clients()[j]
        },
    }
}

impl<C: Conn> Broadcaster<C> {
    pub closed spec fn spec_clients(&self) -> Map<usize, Client<C>> {
        self.clients@
    }

    pub closed spec fn spec_mounts(&self) -> Seq<Set<usize>> {
        self.client_mounts@
    }

    pub closed spec fn spec_streams(&self) -> Seq<Stream> {
        self.streams@
    }

    pub closed spec fn spec_name(&self) -> Seq<char> {
        self.name@
    }

    /// One set of listeners per stream; every listener following a mount is
    /// known, and every listener known is well formed.
    pub closed spec fn wf(&self) -> bool {
        &&& self.client_mounts@.len() == self.streams@.len()
        &&& forall|id: usize| #[trigger] self.clients@.contains_key(id) ==> self.clients@[id].wf()
        &&& forall|m: int, id: usize|
            0 <= m < self.client_mounts@.len() && #[trigger] self.client_mounts@[m].contains(id)
                ==> self.clients@.contains_key(id)
    }

    /// A broadcaster for these streams, with no listeners yet.
    pub fn new(configs: Vec<StreamConfig>, name: String) -> (b: Broadcaster<C>)
        ensures
            b.wf(),
            b.spec_clients() == Map::<usize, Client<C>>::empty(),
            b.spec_mounts() == Seq::new(configs@.len(), |i: int| Set::<usize>::empty()),
            b.spec_streams().len() == configs@.len(),
            forall|i: int|
                0 <= i < configs@.len() ==> {
                    &&& (#[trigger] b.spec_streams()[i]).spec_config() == configs@[i]
                    &&& b.spec_streams()[i].spec_header() == Seq::<u8>::empty()
                    &&& b.spec_streams()[i].spec_buffer() == Seq::<Seq<u8>>::empty()
                },
            b.spec_name() == name@,
    {
        let ghost all = configs@;
        let n = configs.len();
        let mut rest = configs;
        let mut streams: Vec<Stream> = Vec::new();
        while rest.len() > 0
            invariant
                n == all.len(),
                streams@.len() + rest@.len() == n,
                rest@ == all.subrange(streams@.len() as int, n as int),
                forall|i: int|
                    0 <= i < streams@.len() ==> {
                        &&& (#[trigger] streams@[i]).spec_config() == all[i]
                        &&& streams@[i].spec_header() == Seq::<u8>::empty()
                        &&& streams@[i].spec_buffer() == Seq::<Seq<u8>>::empty()
                    },
            decreases rest@.len(),
        {
            let c = rest.remove(0);
            streams.push(Stream::new(c));
            proof {
                assert(rest@ =~= all.subrange(streams@.len() as int, n as int));
            }
        }
        let b = Broadcaster { clients: HashMap::new(), client_mounts: Audience::new(n), streams, name };
        b
    }

    /// The stream of mount `m`.
    pub fn stream(&self, m: usize) -> (s: &Stream)
        requires
            m < self.spec_streams().len(),
        ensures
            *s == self.spec_streams()[m as int],
    {
        &self.streams[m]
    }

    /// How many streams there are.
    pub fn stream_count(&self) -> (n: usize)
        ensures
            n == self.spec_streams().len(),
    {
        self.streams.len()
    }

    /// The station's name, as the response head announces it.
    pub fn name(&self) -> (n: &String)
        ensures
            n@ == self.spec_name(),
    {
        &self.name
    }

    /// The listeners of mount `m`, each once, in no particular order.
    pub fn listeners_of(&self, m: usize) -> (r: Vec<usize>)
        requires
            self.wf(),
            m < self.spec_streams().len(),
        ensures
            r@.to_set() == self.spec_mounts()[m as int],
            r@.no_duplicates(),
    {
        self.client_mounts.listeners(m)
    }

    /// Whether `id` is a listener.
    pub fn has_client(&self, id: usize) -> (r: bool)
        ensures
            r == self.spec_clients().contains_key(id),
    {
        broadcast use vstd::std_specs::hash::group_hash_axioms;
        self.clients.contains_key(&id)
    }

    /// `client`, known as `id`, now listens to mount `mount`.
    pub fn add_client(&mut self, id: usize, mount: usize, client: Client<C>)
        requires
            old(self).wf(),
            mount < old(self).spec_streams().len(),
            client.wf(),
        ensures
            final(self).wf(),
            final(self).spec_clients() == old(self).spec_clients().insert(id, client),
            final(self).spec_mounts() == old(self).spec_mounts().update(
                mount as int,
                old(self).spec_mounts()[mount as int].insert(id),
            ),
            final(self).spec_streams() == old(self).spec_streams(),
            final(self).spec_name() == old(self).spec_name(),
    {
        broadcast use vstd::std_specs::hash::group_hash_axioms;
        self.clients.insert(id, client);
        self.client_mounts.join(mount, id);
    }

    /// Listener `id` goes: it is forgotten, and follows no mount any more.
    /// Returns it, if it was a listener.
    pub fn remove_client(&mut self, id: usize) -> (c: Option<Client<C>>)
        requires
            old(self).wf(),
        ensures
            final(self).wf(),
            final(self).spec_clients() == old(self).spec_clients().remove(id),
            final(self).spec_mounts() == without(old(self).spec_mounts(), id),
            match c {
                Some(x) => old(self).spec_clients().contains_key(id) && x == old(self).spec_clients()[id],
                None => !old(self).spec_clients().contains_key(id),
            },
            final(self).spec_streams() == old(self).spec_streams(),
            final(self).spec_name() == old(self).spec_name(),
    {
        broadcast use vstd::std_specs::hash::group_hash_axioms;
        let c = self.clients.remove(&id);
        self.client_mounts.leave(id);
        c
    }

    /// Listener `id` can take more: what waits for it is flushed, and it
    /// goes if its connection failed. Returns it then.
    pub fn flush_client(&mut self, id: usize) -> (gone: Option<Client<C>>)
        requires
            old(self).wf(),
        ensures
            final(self).wf(),
            !old(self).spec_clients().contains_key(id) ==> {
                &&& gone is None
                &&& final(self).spec_clients() == old(self).spec_clients()
                &&& final(self).spec_mounts() == old(self).spec_mounts()
            },
            old(self).spec_clients().contains_key(id) ==> exists|r: Result<bool, ()>, s: ClientState|
                #[trigger] flush_post(old(self).spec_clients()[id].state(), s, r) && flushed(
                    *old(self),
                    *final(self),
                    id,
                    r,
                    s,
                    gone,
                ),
            final(self).spec_streams() == old(self).spec_streams(),
            final(self).spec_name() == old(self).spec_name(),
    {
        broadcast use vstd::std_specs::hash::group_hash_axioms;
        match self.clients.remove(&id) {
            None => None,
            Some(mut c) => {
                let ghost s0 = c.state();
                let r = c.flush_buffer();
                let ghost s1 = c.state();
                assert(flush_post(s0, s1, r));
                match r {
                    Err(_) => {
                        self.client_mounts.leave(id);
                        Some(c)
                    },
                    Ok(_) => {
                        self.clients.insert(id, c);
                        proof {
                            assert(self.clients@.dom() =~= old(self).clients@.dom());
                        }
                        None
                    },
                }
            },
        }
    }

    /// A piece of mount `mount`'s stream, from the transcoder. Every
    /// listener of the mount gets it as [`delivered`] says; those whose
    /// connection failed are removed and handed back, with their numbers.
    /// Then the stream keeps the piece, as [`Stream::record`] says.
    pub fn process_buffer(&mut self, mount: usize, data: BufferData) -> (gone: Vec<(usize, Client<C>)>)
        requires
            old(self).wf(),
            mount < old(self).spec_streams().len(),
        ensures
            final(self).wf(),
            final(self).spec_name() == old(self).spec_name(),
            recorded(old(self).spec_streams(), mount as int, data, final(self).spec_streams()),
            forall|j: int|
                0 <= j < gone@.len() ==> {
                    let id = (#[trigger] gone@[j]).0;
                    &&& old(self).spec_mounts()[mount as int].contains(id)
                    &&& old(self).spec_clients().contains_key(id)
                    &&& delivered(
                        old(self).spec_clients()[id].spec_agent(),
                        old(self).spec_clients()[id].state(),
                        data,
                        gone@[j].1.state(),
                        Err(()),
                    )
                },
            forall|i: int, j: int| 0 <= i < j < gone@.len() ==> (#[trigger] gone@[i]).0 != (#[trigger] gone@[j]).0,
            final(self).spec_clients().dom() == old(self).spec_clients().dom().difference(gone_ids(gone@)),
            final(self).spec_mounts() == Seq::new(
                old(self).spec_mounts().len(),
                |m: int| old(self).spec_mounts()[m].difference(gone_ids(gone@)),
            ),
            forall|id: usize| #[trigger]
                final(self).spec_clients().contains_key(id) ==> if old(self).spec_mounts()[mount as int].contains(id) {
                    &&& delivered(
                        old(self).spec_clients()[id].spec_agent(),
                        old(self).spec_clients()[id].state(),
                        data,
                        final(self).spec_clients()[id].state(),
                        Ok(()),
                    )
                    &&& final(self).spec_clients()[id].spec_agent() == old(self).spec_clients()[id].spec_agent()
                } else {
                    final(self).spec_clients()[id] == old(self).spec_clients()[id]
                },
    {
        broadcast use vstd::std_specs::hash::group_hash_axioms;
        let ids = self.client_mounts.listeners(mount);
        let ghost n = self.client_mounts@.len();
        let ghost mine = old(self).spec_mounts()[mount as int];
        let mut gone: Vec<(usize, Client<C>)> = Vec::new();
        let mut k: usize = 0;
        proof {
            assert(gone_ids(gone@) =~= Set::<usize>::empty());
            assert forall|m: int| 0 <= m < n implies #[trigger] old(self).spec_mounts()[m].difference(gone_ids(gone@))
                =~= old(self).spec_mounts()[m] by {}
            assert(self.client_mounts@ =~= Seq::new(n, |m: int| old(self).spec_mounts()[m].difference(gone_ids(gone@))));
            assert(self.clients@.dom() =~= old(self).clients@.dom().difference(gone_ids(gone@)));
        }
        while k < ids.len()
            invariant
                k <= ids@.len(),
                ids@.no_duplicates(),
                ids@.to_set() == mine,
                mine == old(self).spec_mounts()[mount as int],
                old(self).wf(),
                mount < old(self).spec_streams().len(),
                n == old(self).spec_mounts().len(),
                self.streams == old(self).streams,
                self.name == old(self).name,
                gone_ids(gone@).subset_of(ids@.take(k as int).to_set()),
                self.client_mounts@ == Seq::new(n, |m: int| old(self).spec_mounts()[m].difference(gone_ids(gone@))),
                self.clients@.dom() == old(self).clients@.dom().difference(gone_ids(gone@)),
                forall|id: usize| #[trigger] self.clients@.contains_key(id) ==> self.clients@[id].wf(),
                forall|id: usize| #[trigger]
                    self.clients@.contains_key(id) ==> if ids@.take(k as int).contains(id) {
                        &&& delivered(
                            old(self).clients@[id].agent,
                            old(self).clients@[id].state(),
                            data,
                            self.clients@[id].state(),
                            Ok(()),
                        )
                        &&& self.clients@[id].agent == old(self).clients@[id].agent
                    } else {
                        self.clients@[id] == old(self).clients@[id]
                    },
                forall|j: int|
                    0 <= j < gone@.len() ==> {
                        let id = (#[trigger] gone@[j]).0;
                        &&& ids@.take(k as int).contains(id)
                        &&& old(self).clients@.contains_key(id)
                        &&& delivered(
                            old(self).clients@[id].agent,
                            old(self).clients@[id].state(),
                            data,
                            gone@[j].1.state(),
                            Err(()),
                        )
                    },
                forall|i: int, j: int| 0 <= i < j < gone@.len() ==> (#[trigger] gone@[i]).0 != (#[trigger] gone@[j]).0,
            decreases ids@.len() - k,
        {
            let id = ids[k];
            let ghost gset = gone_ids(gone@);
            proof {
                assert(ids@.take(k as int + 1) =~= ids@.take(k as int).push(id));
                assert forall|x: usize| #[trigger] ids@.take(k as int + 1).contains(x) == (ids@.take(k as int).contains(x)
                    || x == id) by {
                    if ids@.take(k as int).contains(x) {
                        let j = choose|j: int| 0 <= j < k && ids@.take(k as int)[j] == x;
                        assert(ids@.take(k as int + 1)[j] == x);
                    }
                    if x == id {
                        assert(ids@.take(k as int + 1)[k as int] == x);
                    }
                    if ids@.take(k as int + 1).contains(x) {
                        let t = ids@.take(k as int + 1);
                        let j = choose|j: int| 0 <= j < t.len() && t[j] == x;
                        if j < k {
                            assert(ids@.take(k as int)[j] == x);
                        }
                    }
                }
                assert(!ids@.take(k as int).contains(id)) by {
                    if ids@.take(k as int).contains(id) {
                        let j = choose|j: int| 0 <= j < k && ids@.take(k as int)[j] == id;
                        assert(ids@[j] == ids@[k as int]);
                    }
                }
                assert(!gset.contains(id)) by {
                    if gset.contains(id) {
                        assert(ids@.take(k as int).to_set().contains(id));
                    }
                }
                assert(mine.contains(id)) by {
                    assert(ids@.to_set().contains(id));
                }
                assert(old(self).spec_mounts()[mount as int].contains(id));
                assert(old(self).clients@.contains_key(id));
                assert(self.clients@.contains_key(id));
            }
            let c_opt = self.clients.remove(&id);
            match c_opt {
                Some(c0) => {
                    let mut c = c0;
                    let r = c.deliver(&data);
                    if r.is_err() {
                        let ghost prev = self.client_mounts@;
                        self.client_mounts.leave(id);
                        let ghost gold = gone@;
                        gone.push((id, c));
                        proof {
                            assert(gone_ids(gone@) =~= gset.insert(id)) by {
                                assert forall|x: usize| gone_ids(gone@).contains(x) implies gset.insert(id).contains(x) by {
                                    let j = choose|j: int| 0 <= j < gone@.len() && gone@[j].0 == x;
                                    if j < gold.len() {
                                        assert(gold[j] == gone@[j]);
                                    }
                                }
                                assert forall|x: usize| gset.insert(id).contains(x) implies gone_ids(gone@).contains(x) by {
                                    if x == id {
                                        assert(gone@[gold.len() as int].0 == id);
                                    } else {
                                        let j = choose|j: int| 0 <= j < gold.len() && gold[j].0 == x;
                                        assert(gone@[j] == gold[j]);
                                    }
                                }
                            }
                            assert forall|m: int| 0 <= m < n implies #[trigger] self.client_mounts@[m]
                                =~= old(self).spec_mounts()[m].difference(gone_ids(gone@)) by {
                                assert(prev[m] == old(self).spec_mounts()[m].difference(gset));
                            }
                            assert(self.client_mounts@ =~= Seq::new(
                                n,
                                |m: int| old(self).spec_mounts()[m].difference(gone_ids(gone@)),
                            ));
                            assert(self.clients@.dom() =~= old(self).clients@.dom().difference(gone_ids(gone@)));
                            match r {
                                Ok(_) => {},
                                Err(u) => assert(r == Err::<(), ()>(())),
                            }
                            assert(gone@[gold.len() as int].0 == id);
                            assert forall|j: int| 0 <= j < gold.len() implies gone@[j] == gold[j] by {}
                        }
                    } else {
                        self.clients.insert(id, c);
                        proof {
                            assert(self.clients@.dom() =~= old(self).clients@.dom().difference(gone_ids(gone@)));
                            match r {
                                Ok(u) => assert(r == Ok::<(), ()>(())),
                                Err(_) => {},
                            }
                        }
                    }
                },
                None => {},
            }
            proof {
                assert forall|x: usize| gone_ids(gone@).contains(x) implies ids@.take(k as int + 1).to_set().contains(x) by {
                    if x == id {
                        assert(ids@.take(k as int + 1)[k as int] == id);
                    } else {
                        assert(gset.contains(x));
                        assert(ids@.take(k as int).to_set().contains(x));
                        let j = choose|j: int| 0 <= j < k && ids@.take(k as int)[j] == x;
                        assert(ids@.take(k as int + 1)[j] == x);
                    }
                }
            }
            k = k + 1;
        }
        proof {
            assert(ids@.take(ids@.len() as int) =~= ids@);
        }
        self.streams[mount].record(data);
        proof {
            assert forall|m: int, id: usize|
                0 <= m < self.client_mounts@.len() && #[trigger] self.client_mounts@[m].contains(id)
                implies self.clients@.contains_key(id) by {
                assert(old(self).client_mounts@[m].contains(id));
            }
        }
        gone
    }

    /// Which stream a listener's request path asks for, as [`find_mount`]
    /// says of the streams' configurations.
    pub fn mount_for(&self, path: &str) -> (m: MountMatch)
        ensures
            mount_matches(url_join_path(request_base(), path@), configs_of(self.spec_streams()), m),
    {
        self.match_mount(join_path(REQUEST_BASE, path))
    }

    /// Which stream a resolved request path asks for (see [`mount_matches`]).
    pub fn match_mount(&self, joined: Option<String>) -> (m: MountMatch)
        ensures
            mount_matches(
                match joined {
                    Some(j) => Some(j@),
                    None => None,
                },
                configs_of(self.spec_streams()),
                m,
            ),
    {
        let ghost jv: Option<Seq<char>> = match &joined {
            Some(j) => Some(j@),
            None => None,
        };
        let mount = match joined {
            Some(m) => m,
            None => return MountMatch::BadUrl,
        };
        let ghost cs = configs_of(self.streams@);
        let mut k: usize = 0;
        while k < self.streams.len()
            invariant
                jv == Some(mount@),
                jv == (match joined {
                    Some(j) => Some(j@),
                    None => None,
                }),
                k <= self.streams@.len(),
                cs == configs_of(self.streams@),
                forall|j: int| 0 <= j < k ==> !ends_with_spec(mount@, (#[trigger] cs[j]).mount@),
            decreases self.streams@.len() - k,
        {
            if ends_with(mount.as_str(), self.streams[k].config().mount.as_str()) {
                proof {
                    lemma_first_mount(mount@, cs, k as int);
                }
                return MountMatch::Stream(k);
            }
            k = k + 1;
        }
        proof {
            assert(!(exists|i: int| 0 <= i < cs.len() && ends_with_spec(mount@, (#[trigger] cs[i]).mount@)));
        }
        MountMatch::Unknown(mount)
    }

    /// Opens stream `mount` to `client`, known as `id` (see
    /// [`Client::welcome`]). If that went through, it listens to the mount;
    /// otherwise it is handed back.
    pub fn open_client(&mut self, id: usize, mount: usize, client: Client<C>) -> (r: Result<(), Client<C>>)
        requires
            old(self).wf(),
            mount < old(self).spec_streams().len(),
            client.wf(),
        ensures
            final(self).wf(),
            final(self).spec_streams() == old(self).spec_streams(),
            final(self).spec_name() == old(self).spec_name(),
            exists|c: Client<C>, w: Result<(), ()>|
                #[trigger] welcomed(client, old(self).spec_name(), old(self).spec_streams()[mount as int], c, w) && match w {
                    Ok(_) => {
                        &&& r is Ok
                        &&& final(self).spec_clients() == old(self).spec_clients().insert(id, c)
                        &&& final(self).spec_mounts() == old(self).spec_mounts().update(
                            mount as int,
                            old(self).spec_mounts()[mount as int].insert(id),
                        )
                    },
                    Err(_) => {
                        &&& r matches Err(x) && x == c
                        &&& final(self).spec_clients() == old(self).spec_clients()
                        &&& final(self).spec_mounts() == old(self).spec_mounts()
                    },
                },
    {
        let mut c = client;
        let w = c.welcome(self.name.as_str(), &self.streams[mount]);
        proof {
            assert(welcomed(client, old(self).spec_name(), old(self).spec_streams()[mount as int], c, w));
        }
        match w {
            Ok(()) => {
                self.add_client(id, mount, c);
                Ok(())
            },
            Err(()) => Err(c),
        }
    }
}

} // verus!

verus! {

/// A listener that joins a mount and then leaves is as if it had never
/// joined: every mount keeps the listeners it had, less that one.
pub proof fn law_join_then_leave(mounts: Seq<Set<usize>>, m: int, id: usize)
    requires
        0 <= m < mounts.len(),
    ensures
        without(mounts.update(m, mounts[m].insert(id)), id) == without(mounts, id),
        !mounts[m].contains(id) ==> without(mounts.update(m, mounts[m].insert(id)), id)[m] == mounts[m],
{
    let a = without(mounts.update(m, mounts[m].insert(id)), id);
    let b = without(mounts, id);
    assert forall|i: int| 0 <= i < mounts.len() implies #[trigger] a[i] =~= b[i] by {}
    assert(a =~= b);
    if !mounts[m].contains(id) {
        assert(b[m] =~= mounts[m]);
    }
}

} // verus!

verus! {

/// A slow listener never has more than [`CLIENT_BUFFER_LEN`] bytes waiting.
pub proof fn law_client_backlog_bounded<C: Conn>(c: &Client<C>)
    requires
        c.wf(),
    ensures
        c.spec_buffer().len() <= CLIENT_BUFFER_LEN,
{
}

/// What a stream keeps for late joiners never grows past
/// [`BACK_BUFFER_LEN`] pieces, and the newest piece is always kept.
pub proof fn law_back_buffer_bounded(kept: Seq<Seq<u8>>, piece: Seq<u8>)
    ensures
        keep_last(kept.push(piece), BACK_BUFFER_LEN as nat).len() <= BACK_BUFFER_LEN,
        keep_last(kept.push(piece), BACK_BUFFER_LEN as nat).last() == piece,
{
}

} // verus!

verus! {

/// What a reader of HTTP chunked encoding gets from `b`, a stream of
/// [`CHUNK_SIZE`]-byte chunks cut off anywhere after a chunk-opening line:
/// the body of each chunk, in order, or `None` when an opening or closing
/// line is not where it belongs.
pub open spec fn unchunk(b: Seq<u8>) -> Option<Seq<u8>>
    decreases b.len(),
{
    let h = chunk_header();
    let f = chunk_footer();
    if b.len() < h.len() || b.subrange(0, h.len() as int) != h {
        None
    } else {
        let body = b.subrange(h.len() as int, b.len() as int);
        if body.len() <= CHUNK_SIZE {
            Some(body)
        } else {
            let rest = body.subrange(CHUNK_SIZE as int, body.len() as int);
            if rest.len() < f.len() || rest.subrange(0, f.len() as int) != f {
                None
            } else {
                match unchunk(rest.subrange(f.len() as int, rest.len() as int)) {
                    Some(more) => Some(body.subrange(0, CHUNK_SIZE as int) + more),
                    None => None,
                }
            }
        }
    }
}

/// What a listener is sent for a stream, from its first chunk-opening line
/// on, reads back as exactly the stream's data: the chunked framing loses,
/// adds and reorders nothing.
pub proof fn law_chunked_stream_decodes(d: Seq<u8>)
    ensures
        unchunk(framed(ChunkerView::Header(chunk_header()), d)) == Some(d),
    decreases d.len(),
{
    let h = chunk_header();
    let f = chunk_footer();
    let b = framed(ChunkerView::Header(h), d);
    assert(b == h + framed(ChunkerView::Body(0), d));
    assert(b.subrange(0, h.len() as int) =~= h);
    let body = b.subrange(h.len() as int, b.len() as int);
    assert(body =~= framed(ChunkerView::Body(0), d));
    if d.len() < CHUNK_SIZE {
        assert(body =~= d);
    } else {
        let tail = d.subrange(CHUNK_SIZE as int, d.len() as int);
        let next = framed(ChunkerView::Header(h), tail);
        assert(framed(ChunkerView::Footer(f), tail) == f + next);
        assert(body =~= d.subrange(0, CHUNK_SIZE as int) + (f + next));
        let rest = body.subrange(CHUNK_SIZE as int, body.len() as int);
        assert(rest =~= f + next);
        assert(rest.subrange(0, f.len() as int) =~= f);
        assert(rest.subrange(f.len() as int, rest.len() as int) =~= next);
        law_chunked_stream_decodes(tail);
        assert(body.subrange(0, CHUNK_SIZE as int) =~= d.subrange(0, CHUNK_SIZE as int));
        assert(d.subrange(0, CHUNK_SIZE as int) + tail =~= d);
    }
}


/// The pieces among `ds` that went to mount `m` (the `i`-th went to mount
/// `ms[i]`), oldest first.
pub open spec fn pieces_for(ms: Seq<int>, ds: Seq<BufferData>, m: int) -> Seq<Seq<u8>>
    decreases ds.len(),
{
    if ds.len() == 0 || ms.len() != ds.len() {
        Seq::empty()
    } else {
        pieces_for(ms.drop_last(), ds.drop_last(), m) + if ms.last() == m {
            seq![ds.last().bytes()]
        } else {
            Seq::empty()
        }
    }
}

/// Mount `m`'s header after the pieces `ds`: that of the latest header sent
/// to it, else `h0`.
pub open spec fn header_for(h0: Seq<u8>, ms: Seq<int>, ds: Seq<BufferData>, m: int) -> Seq<u8>
    decreases ds.len(),
{
    if ds.len() == 0 || ms.len() != ds.len() {
        h0
    } else if ms.last() == m && ds.last() is Header {
        ds.last().bytes()
    } else {
        header_for(h0, ms.drop_last(), ds.drop_last(), m)
    }
}

/// Keeping the last `n` of a sequence is the same as keeping the last `n`
/// of any longer sequence it ends.
proof fn lemma_keep_last_suffix<T>(c: Seq<T>, a: Seq<T>, n: nat)
    requires
        a.len() >= n,
    ensures
        keep_last(a, n) == keep_last(c + a, n),
{
    let b = c + a;
    if a.len() > n {
        assert(a.subrange(a.len() - n, a.len() as int) =~= b.subrange(b.len() - n, b.len() as int));
    } else {
        assert(a =~= b.subrange(b.len() - n, b.len() as int));
    }
}

/// Keeping the last `n`, adding one, and keeping the last `n` again is
/// adding one and keeping the last `n`.
proof fn lemma_keep_last_push<T>(s: Seq<T>, x: T, n: nat)
    requires
        n > 0,
    ensures
        keep_last(keep_last(s, n).push(x), n) == keep_last(s.push(x), n),
{
    if s.len() > n {
        let k = keep_last(s, n);
        let c = s.subrange(0, s.len() - n);
        assert(s.push(x) =~= c + k.push(x));
        lemma_keep_last_suffix(c, k.push(x), n);
    }
}

/// What the streams keep over any run of pieces: mount `m` keeps the last
/// [`BACK_BUFFER_LEN`] of what it held and every piece sent to it, in
/// order, and the header of the latest header piece sent to it; its
/// configuration, and the number of mounts, never change.
pub proof fn law_back_buffer_over_a_run(ss: Seq<Seq<Stream>>, ms: Seq<int>, ds: Seq<BufferData>, m: int)
    requires
        ss.len() == ds.len() + 1,
        ms.len() == ds.len(),
        0 <= m < ss[0].len(),
        ss[0][m].spec_buffer().len() <= BACK_BUFFER_LEN,
        forall|i: int|
            0 <= i < ds.len() ==> #[trigger] recorded(ss[i], ms[i], ds[i], ss[i + 1]) && 0 <= ms[i] && ms[i]
                < ss[i].len(),
    ensures
        ss.last().len() == ss[0].len(),
        ss.last()[m].spec_config() == ss[0][m].spec_config(),
        ss.last()[m].spec_buffer() == keep_last(
            ss[0][m].spec_buffer() + pieces_for(ms, ds, m),
            BACK_BUFFER_LEN as nat,
        ),
        ss.last()[m].spec_buffer().len() <= BACK_BUFFER_LEN,
        ss.last()[m].spec_header() == header_for(ss[0][m].spec_header(), ms, ds, m),
    decreases ds.len(),
{
    let n = BACK_BUFFER_LEN as nat;
    if ds.len() == 0 {
        assert(ss[0][m].spec_buffer() + pieces_for(ms, ds, m) =~= ss[0][m].spec_buffer());
    } else {
        let k = ds.len() - 1;
        let ss0 = ss.drop_last();
        let ms0 = ms.drop_last();
        let ds0 = ds.drop_last();
        assert forall|i: int| 0 <= i < ds0.len() implies #[trigger] recorded(ss0[i], ms0[i], ds0[i], ss0[i + 1])
            && 0 <= ms0[i] && ms0[i] < ss0[i].len() by {
            assert(ss0[i] == ss[i] && ss0[i + 1] == ss[i + 1] && ms0[i] == ms[i] && ds0[i] == ds[i]);
            assert(recorded(ss[i], ms[i], ds[i], ss[i + 1]));
        }
        assert(ss0[0] == ss[0]);
        law_back_buffer_over_a_run(ss0, ms0, ds0, m);
        assert(recorded(ss[k], ms[k], ds[k], ss[k + 1]));
        assert(ss0.last() == ss[k]);
        let b0 = ss[0][m].spec_buffer();
        let p0 = pieces_for(ms0, ds0, m);
        if ms[k] == m {
            assert(pieces_for(ms, ds, m) == p0 + seq![ds[k].bytes()]);
            assert(b0 + (p0 + seq![ds[k].bytes()]) =~= (b0 + p0).push(ds[k].bytes()));
            lemma_keep_last_push(b0 + p0, ds[k].bytes(), n);
        } else {
            assert(pieces_for(ms, ds, m) =~= p0);
            assert(ss[k + 1][m] == ss[k][m]);
        }
    }
}


/// The pieces `ps` one after the other.
pub open spec fn joined(ps: Seq<Seq<u8>>) -> Seq<u8>
    decreases ps.len(),
{
    if ps.len() == 0 {
        Seq::empty()
    } else {
        joined(ps.drop_last()) + ps.last()
    }
}

/// Two runs in a row are one run.
proof fn lemma_continues_trans(
    c0: ChunkerView,
    p1: Seq<u8>,
    t1: Seq<u8>,
    c1: ChunkerView,
    p2: Seq<u8>,
    t2: Seq<u8>,
    c2: ChunkerView,
)
    requires
        continues(c0, p1, t1, c1),
        continues(c1, p2, t2, c2),
    ensures
        continues(c0, p1 + p2, t1 + t2, c2),
{
    assert forall|y: Seq<u8>| #![trigger framed(c2, y)] framed(c0, (p1 + p2) + y) == (t1 + t2) + framed(c2, y) by {
        assert((p1 + p2) + y =~= p1 + (p2 + y));
        assert(framed(c1, p2 + y) == t2 + framed(c2, y));
        assert(framed(c0, p1 + (p2 + y)) == t1 + framed(c1, p2 + y));
        assert(t1 + (t2 + framed(c2, y)) =~= (t1 + t2) + framed(c2, y));
    }
}

/// Chunked framing over any run of writes. If the `i`-th
/// [`Chunker::write`] took the chunker from `cs[i]` to `cs[i + 1]`, sent
/// the data `ps[i]` and the connection took `ts[i]` (as its ensures say),
/// then everything the connection took, in order, followed by what the last
/// state still owes, is the framing from the first state of all the data
/// sent; so what was taken is the start of that framing. From
/// [`Chunker::new`], that framing reads back as the data sent (see
/// [`law_chunked_stream_decodes`]).
pub proof fn law_framing_over_a_run(cs: Seq<ChunkerView>, ps: Seq<Seq<u8>>, ts: Seq<Seq<u8>>)
    requires
        cs.len() == ps.len() + 1,
        ts.len() == ps.len(),
        forall|i: int| 0 <= i < ps.len() ==> #[trigger] continues(cs[i], ps[i], ts[i], cs[i + 1]),
    ensures
        continues(cs[0], joined(ps), joined(ts), cs.last()),
        framed(cs[0], joined(ps)) == joined(ts) + framed(cs.last(), Seq::<u8>::empty()),
        joined(ts) == framed(cs[0], joined(ps)).subrange(0, joined(ts).len() as int),
    decreases ps.len(),
{
    if ps.len() == 0 {
        lemma_continues_self(cs[0]);
        assert(joined(ps) == Seq::<u8>::empty());
        assert(joined(ts) == Seq::<u8>::empty());
    } else {
        let k = ps.len() - 1;
        let c0 = cs.drop_last();
        let p0 = ps.drop_last();
        let t0 = ts.drop_last();
        assert forall|i: int| 0 <= i < p0.len() implies #[trigger] continues(c0[i], p0[i], t0[i], c0[i + 1]) by {
            assert(continues(cs[i], ps[i], ts[i], cs[i + 1]));
        }
        law_framing_over_a_run(c0, p0, t0);
        assert(c0.last() == cs[k]);
        assert(continues(cs[k], ps[k], ts[k], cs[k + 1]));
        lemma_continues_trans(cs[0], joined(p0), joined(t0), cs[k], ps[k], ts[k], cs[k + 1]);
    }
    let e = Seq::<u8>::empty();
    assert(framed(cs.last(), e) == framed(cs.last(), e));
    assert(joined(ps) + e =~= joined(ps));
    let f = framed(cs[0], joined(ps));
    assert(f == joined(ts) + framed(cs.last(), e));
    assert(f.subrange(0, joined(ts).len() as int) =~= joined(ts));
}


/// The response head opens with the status line and the server line, and
/// then announces the content type that the stream's container calls for:
/// audio/mpeg for MP3, audio/flac for FLAC, audio/aac for AAC and audio/ogg
/// for Ogg. No two containers are announced alike.
pub proof fn law_head_content_type(name: Seq<char>, config: StreamConfig)
    ensures
        ({
            let t = match config.container {
                Container::MP3 => ("audio/mpeg"@),
                Container::FLAC => ("audio/flac"@),
                Container::AAC => ("audio/aac"@),
                Container::Ogg => ("audio/ogg"@),
            };
            let line = "HTTP/1.1 200 OK\r\nServer: kawa/0.1.0\r\nContent-Type: "@ + t + "\r\n"@;
            response_head(name, config).subrange(0, line.len() as int) == line
        }),
        forall|c1: Container, c2: Container| c1 != c2 ==> content_type(c1) != content_type(c2),
{
    let pre = "HTTP/1.1 200 OK\r\nServer: kawa/0.1.0\r\nContent-Type: "@;
    let t = content_type(config.container);
    let h = response_head(name, config);
    reveal_strlit("HTTP/1.1 200 OK\r\nServer: kawa/0.1.0\r\nContent-Type: ");
    reveal_strlit("\r\n");
    reveal_strlit("\r\nTransfer-Encoding: chunked\r\nConnection: keep-alive\r\nCache-Control: no-cache\r\nx-audiocast-name: ");
    reveal_strlit("audio/mpeg");
    reveal_strlit("audio/flac");
    reveal_strlit("audio/aac");
    reveal_strlit("audio/ogg");
    let rest = "\r\nTransfer-Encoding: chunked\r\nConnection: keep-alive\r\nCache-Control: no-cache\r\nx-audiocast-name: "@;
    let line = pre + t + "\r\n"@;
    assert(h.subrange(0, line.len() as int) =~= line) by {
        assert forall|k: int| 0 <= k < line.len() implies h[k] == line[k] by {
            if k >= pre.len() + t.len() {
                assert(rest[k - pre.len() - t.len()] == "\r\n"@[k - pre.len() - t.len()]);
            }
        }
    }
    assert forall|c1: Container, c2: Container| c1 != c2 implies content_type(c1) != content_type(c2) by {
        let a = content_type(c1);
        let b = content_type(c2);
        if a.len() == b.len() {
            assert(a[6] != b[6] || a[7] != b[7]);
        }
    }
}


/// Sending a nonempty piece always makes at least one write on the
/// listener's connection, whatever its answers: the flush, or the framing
/// of the piece itself.
proof fn lemma_sent_writes(s0: ClientState, d: Seq<u8>, s1: ClientState, r: Result<(), ()>)
    requires
        d.len() > 0,
        sent(s0, d, s1, r),
    ensures
        outcomes_grew(s0.outcomes, s1.outcomes),
{
    let (sm, fr) = choose|sm: ClientState, fr: Result<bool, ()>|
        #[trigger] flush_post(s0, sm, fr) && send_post(sm, fr, d, s1, r);
    match fr {
        Err(_) => {},
        Ok(false) => {},
        Ok(true) => {
            let answers = s1.outcomes.subrange(sm.outcomes.len() as int, s1.outcomes.len() as int);
            assert(chunk_run(sm.chunker, d, answers) is Some);
            assert(answers.len() > 0);
            lemma_extends_trans(s0.outcomes, sm.outcomes, s1.outcomes);
        },
    }
}

/// Which listeners a piece of a stream reaches: an encoded frame reaches
/// every listener, and a header or trailer reaches MPD listeners: a write
/// is made on their connection, whatever it answers. A header or trailer
/// leaves every other listener untouched.
pub proof fn law_delivery(agent: Agent, s0: ClientState, data: BufferData, s1: ClientState, r: Result<(), ()>)
    requires
        delivered(agent, s0, data, s1, r),
    ensures
        data is Frame && data.bytes().len() > 0 ==> outcomes_grew(s0.outcomes, s1.outcomes),
        agent == Agent::MPD && data.bytes().len() > 0 ==> outcomes_grew(s0.outcomes, s1.outcomes),
        !(data is Frame) && agent != Agent::MPD ==> r is Ok && s1 == s0,
{
    if (data is Frame || agent == Agent::MPD) && data.bytes().len() > 0 {
        lemma_sent_writes(s0, data.bytes(), s1, r);
    }
}

} // verus!
