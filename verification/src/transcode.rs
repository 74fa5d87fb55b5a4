use vstd::prelude::*;

use crate::kaeru::{AVERROR_EOF, AVERROR_EXIT, AVSEEK_SIZE};

verus! {

/// Read callback over an in-memory input: fills `buffer` from `input` at
/// `*pos`. When the whole buffer fits before the end, it is filled, the
/// position moves past it and its length is returned; otherwise what is
/// left is copied to the front of the buffer, the position stays, and
/// `AVERROR_EOF` is returned.
pub fn read_buf(pos: &mut usize, input: &[u8], buffer: &mut [u8]) -> (r: i32)
    ensures
        final(buffer)@.len() == old(buffer)@.len(),
        ({
            let p = *old(pos) as int;
            let len = old(buffer)@.len() as int;
            if p + len < input@.len() {
                &&& final(buffer)@ == input@.subrange(p, p + len)
                &&& *final(pos) == p + len
                &&& r == len as i32
            } else if p < input@.len() {
                &&& final(buffer)@ == input@.subrange(p, input@.len() as int) + old(buffer)@.subrange(
                    input@.len() - p,
                    len,
                )
                &&& *final(pos) == p
                &&& r == AVERROR_EOF
            } else {
                &&& final(buffer)@ == old(buffer)@
                &&& *final(pos) == p
                &&& r == AVERROR_EOF
            }
        }),
{
    let len = buffer.len();
    let p = *pos;
    if p < input.len() && len < input.len() - p {
        copy_prefix(buffer, input, p, len);
        *pos = p + len;
        proof {
            assert(buffer@ =~= input@.subrange(p as int, p + len));
        }
        len as i32
    } else if p < input.len() {
        let n = input.len() - p;
        copy_prefix(buffer, input, p, n);
        proof {
            assert(buffer@ =~= input@.subrange(p as int, input@.len() as int) + old(buffer)@.subrange(
                n as int,
                len as int,
            ));
        }
        AVERROR_EOF
    } else {
        AVERROR_EOF
    }
}

/// Copies `input[from..from + n]` to `buffer[0..n]`.
fn copy_prefix(buffer: &mut [u8], input: &[u8], from: usize, n: usize)
    requires
        n <= old(buffer)@.len(),
        from + n <= input@.len(),
    ensures
        final(buffer)@.len() == old(buffer)@.len(),
        forall|i: int| 0 <= i < n ==> final(buffer)@[i] == input@[from + i],
        forall|i: int| n <= i < old(buffer)@.len() ==> final(buffer)@[i] == old(buffer)@[i],
{
    let mut k: usize = 0;
    while k < n
        invariant
            k <= n,
            n <= buffer.len(),
            from + n <= input.len(),
            buffer@.len() == old(buffer)@.len(),
            forall|i: int| 0 <= i < k ==> buffer@[i] == input@[from + i],
            forall|i: int| k <= i < old(buffer)@.len() ==> buffer@[i] == old(buffer)@[i],
        decreases n - k,
    {
        buffer[k] = input[from + k];
        k = k + 1;
    }
}

/// Seek callback over an in-memory input: asked for the size, gives the
/// input's length; otherwise moves to `offset` and gives it back.
pub fn seek_buf(pos: &mut usize, input: &[u8], offset: i64, whence: i32) -> (r: i64)
    ensures
        whence == AVSEEK_SIZE ==> r == input@.len() as i64 && *final(pos) == *old(pos),
        whence != AVSEEK_SIZE ==> r == offset && *final(pos) == offset as usize,
{
    if whence == AVSEEK_SIZE {
        return input.len() as i64;
    }
    *pos = offset as usize;
    offset
}

/// Write callback into an in-memory output: once canceled, the output is
/// dropped and the write refused with `AVERROR_EXIT`; otherwise all of
/// `buffer` is appended and its length returned.
pub fn write_to_buf(data: &mut Vec<u8>, canceled: bool, buffer: &[u8]) -> (r: i32)
    ensures
        canceled ==> final(data)@ == Seq::<u8>::empty() && r == AVERROR_EXIT,
        !canceled ==> final(data)@ == old(data)@ + buffer@ && r == buffer@.len() as i32,
{
    if canceled {
        data.clear();
        return AVERROR_EXIT;
    }
    let mut k: usize = 0;
    let ghost d0 = data@;
    while k < buffer.len()
        invariant
            k <= buffer@.len(),
            d0 == old(data)@,
            data@ == d0 + buffer@.subrange(0, k as int),
        decreases buffer@.len() - k,
    {
        data.push(buffer[k]);
        k = k + 1;
        proof {
            assert(data@ =~= d0 + buffer@.subrange(0, k as int));
        }
    }
    proof {
        assert(buffer@.subrange(0, buffer@.len() as int) =~= buffer@);
    }
    buffer.len() as i32
}

} // verus!
