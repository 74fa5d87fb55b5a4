use vstd::prelude::*;

use crate::broadcast::IoFailure;
use crate::config::Codec;

verus! {

/// The tags of a song.
pub struct Metadata {
    pub title: Option<String>,
    pub album: Option<String>,
    pub artist: Option<String>,
    pub genre: Option<String>,
    pub date: Option<String>,
    pub track: Option<String>,
}

/// The sample rate an encoder is set to: Opus only takes 48 kHz, MP3 is
/// kept at 44.1 kHz, anything else follows the input.
pub open spec fn output_sample_rate_spec(codec: Codec, input_rate: i32) -> i32 {
    match codec {
        Codec::Opus => 48000,
        Codec::Mp3 => 44100,
        _ => input_rate,
    }
}

pub fn output_sample_rate(codec: Codec, input_rate: i32) -> (r: i32)
    ensures
        r == output_sample_rate_spec(codec, input_rate),
{
    match codec {
        Codec::Opus => 48000,
        Codec::Mp3 => 44100,
        _ => input_rate,
    }
}

/// The bit rate an encoder is set to: the one asked for, or the input's
/// when none (zero) was asked for.
pub fn output_bit_rate(requested: i64, input_bit_rate: i64) -> (r: i64)
    ensures
        r == if requested == 0 { input_bit_rate } else { requested },
{
    if requested == 0 {
        input_bit_rate
    } else {
        requested
    }
}

/// The bit rate an output asks for, in bits per second, from the one
/// configured in kbit/s; none configured asks for nothing (zero).
pub fn requested_bit_rate(kbps: Option<i64>) -> (r: i64)
    requires
        kbps matches Some(k) ==> i64::MIN <= k * 1000 <= i64::MAX,
    ensures
        r == match kbps {
            Some(k) => k * 1000,
            None => 0,
        },
{
    match kbps {
        Some(br) => br * 1000,
        None => 0,
    }
}

/// FFmpeg's code for "stop, the callback gave up" (`AVERROR_EXIT`).
pub const AVERROR_EXIT: i32 = -1414092869;

/// FFmpeg's code for "end of file" (`AVERROR_EOF`).
pub const AVERROR_EOF: i32 = -541478725;

/// FFmpeg's `whence` value asking a seek callback for the size of the stream.
pub const AVSEEK_SIZE: i32 = 0x10000;

/// What an I/O callback hands back to FFmpeg for the outcome of a read or
/// write: the byte count, zero when it would block, `AVERROR_EXIT` on any
/// other failure.
pub fn callback_code(r: Result<usize, IoFailure>) -> (c: i32)
    ensures
        c == match r {
            Ok(a) => a as i32,
            Err(IoFailure::WouldBlock) => 0,
            Err(IoFailure::Other) => AVERROR_EXIT,
        },
{
    match r {
        Ok(a) => a as i32,
        Err(IoFailure::WouldBlock) => 0,
        Err(IoFailure::Other) => AVERROR_EXIT,
    }
}

} // verus!
