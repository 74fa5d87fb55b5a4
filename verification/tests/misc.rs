use kawa::broadcast::{IoFailure, Timestamp, BufferData};
use kawa::config::Codec;
use kawa::kaeru::{
    callback_code, output_bit_rate, output_sample_rate, requested_bit_rate, Metadata, AVERROR_EOF, AVERROR_EXIT,
    AVSEEK_SIZE,
};
use kawa::prebuffer::{PreBuffer, RadioConn};
use kawa::tc_queue::{self, BufferRes};
use std::sync::Arc;
use kawa::text::{ends_with, extension, i64_to_decimal, starts_with, str_eq, u64_to_decimal};
use kawa::transcode::{read_buf, seek_buf, write_to_buf};
use kawa::util::shout_fields;

#[test]
fn numbers_are_written_in_decimal() {
    assert_eq!(i64_to_decimal(0), "0");
    assert_eq!(i64_to_decimal(-42), "-42");
    assert_eq!(i64_to_decimal(i64::MIN), "-9223372036854775808");
    assert_eq!(u64_to_decimal(u64::MAX), "18446744073709551615");
}

#[test]
fn text_helpers() {
    assert!(ends_with("/a/stream.ogg", "stream.ogg"));
    assert!(!ends_with("ogg", "stream.ogg"));
    assert!(starts_with("mpv 0.3", "mpv"));
    assert!(!starts_with("mp", "mpv"));
    assert!(str_eq("é", "é"));
    assert!(!str_eq("a", "ab"));
    assert_eq!(extension("a/b.c/song.mp3"), "mp3");
    assert_eq!(extension("noext"), "noext");
    assert_eq!(extension("trailing."), "");
}

#[test]
fn encoder_settings() {
    assert_eq!(output_sample_rate(Codec::Opus, 44100), 48000);
    assert_eq!(output_sample_rate(Codec::Mp3, 48000), 44100);
    assert_eq!(output_sample_rate(Codec::Flac, 96000), 96000);
    assert_eq!(output_bit_rate(0, 320000), 320000);
    assert_eq!(output_bit_rate(128000, 320000), 128000);
    assert_eq!(requested_bit_rate(Some(192)), 192000);
    assert_eq!(requested_bit_rate(None), 0);
}

#[test]
fn io_callback_codes() {
    assert_eq!(callback_code(Ok(17)), 17);
    assert_eq!(callback_code(Err(IoFailure::WouldBlock)), 0);
    assert_eq!(callback_code(Err(IoFailure::Other)), AVERROR_EXIT);
}

#[test]
fn in_memory_reads_and_seeks() {
    let input = [1u8, 2, 3, 4, 5];
    let mut pos = 0usize;
    let mut buf = [0u8; 2];
    assert_eq!(read_buf(&mut pos, &input, &mut buf), 2);
    assert_eq!(buf, [1, 2]);
    assert_eq!(pos, 2);
    let mut big = [0u8; 4];
    assert_eq!(read_buf(&mut pos, &input, &mut big), AVERROR_EOF);
    assert_eq!(big, [3, 4, 5, 0]);
    assert_eq!(pos, 2);
    assert_eq!(seek_buf(&mut pos, &input, 0, AVSEEK_SIZE), 5);
    assert_eq!(seek_buf(&mut pos, &input, 4, 0), 4);
    assert_eq!(pos, 4);
    pos = 9;
    assert_eq!(read_buf(&mut pos, &input, &mut big), AVERROR_EOF);
}

#[test]
fn in_memory_writes() {
    let mut out = vec![1u8];
    assert_eq!(write_to_buf(&mut out, false, &[2, 3]), 2);
    assert_eq!(out, vec![1, 2, 3]);
    assert_eq!(write_to_buf(&mut out, true, &[4]), AVERROR_EXIT);
}

#[test]
fn icecast_tags_carry_the_album_as_genre() {
    let md = Metadata {
        title: Some("T".to_string()),
        album: Some("Al".to_string()),
        artist: None,
        genre: Some("Rock".to_string()),
        date: None,
        track: Some("3".to_string()),
    };
    let f = shout_fields(&md);
    let pairs: Vec<(&str, &str)> = f.iter().map(|(k, v)| (k.as_str(), v.as_str())).collect();
    assert_eq!(pairs, vec![("Title", "T"), ("Album", "Al"), ("Genre", "Al"), ("Track", "3")]);
}

#[test]
fn transcoder_pieces_reach_the_player_in_order() {
    let (mut w, r) = tc_queue::new();
    assert_eq!(w.write(b"head"), Ok(4));
    w.header_written();
    assert_eq!(w.write(b"f1"), Ok(2));
    w.packet_written(Timestamp { bits: 1 });
    w.body_written();
    assert_eq!(w.write(b"tr"), Ok(2));
    // After the trailer has begun, frames are no longer cut.
    w.packet_written(Timestamp { bits: 2 });
    w.finish();
    match r.next_buf() {
        BufferRes::Data(BufferData::Header(h)) => assert_eq!(h, b"head".to_vec()),
        _ => unreachable!(),
    }
    match r.next_buf() {
        BufferRes::Data(BufferData::Frame { data, pts }) => {
            assert_eq!(data, b"f1".to_vec());
            assert_eq!(pts, Timestamp { bits: 1 });
        }
        _ => unreachable!(),
    }
    match r.next_buf() {
        BufferRes::Data(BufferData::Trailer(t)) => assert_eq!(t, b"tr".to_vec()),
        _ => unreachable!(),
    }
    assert!(matches!(r.next_buf(), BufferRes::Done));
    assert!(r.done.load(std::sync::atomic::Ordering::Acquire));
}

#[test]
fn a_writer_whose_player_left_is_refused() {
    let (mut w, r) = tc_queue::new();
    assert!(matches!(r.next_buf(), BufferRes::Timeout));
    r.finish();
    assert_eq!(w.write(b"x"), Err(()));
    w.body_written();
    assert_eq!(w.write(b"y"), Ok(1));
}

#[test]
fn the_radio_hands_each_song_down_the_line_until_the_player_leaves() {
    let (tx, rx) = std::sync::mpsc::channel();
    let mut line = RadioConn::new(tx);
    let md = Metadata { title: Some("T".to_string()), album: None, artist: None, genre: None, date: None, track: None };
    let (_w, r) = tc_queue::new();
    assert_eq!(line.replace_buffer(PreBuffer::new(r, Arc::new(md))), Ok(()));
    let got = rx.recv().unwrap();
    assert_eq!(got.metadata.title, Some("T".to_string()));
    drop(rx);
    let (_w2, r2) = tc_queue::new();
    let md2 = Metadata { title: None, album: None, artist: None, genre: None, date: None, track: None };
    assert_eq!(line.replace_buffer(PreBuffer::new(r2, Arc::new(md2))), Err(()));
}

#[test]
fn a_trailer_is_sent_only_once_it_has_begun() {
    let (mut w, r) = tc_queue::new();
    assert_eq!(w.write(b"h"), Ok(1));
    w.send_trailer();
    assert!(matches!(r.next_buf(), BufferRes::Timeout));
    w.body_written();
    assert_eq!(w.write(b"end"), Ok(3));
    w.send_trailer();
    match r.next_buf() {
        BufferRes::Data(BufferData::Trailer(t)) => assert_eq!(t, b"hend".to_vec()),
        _ => unreachable!(),
    }
}
