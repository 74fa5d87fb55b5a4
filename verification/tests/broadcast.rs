use kawa::broadcast::{
    find_mount, interpret_request, match_mount, process_request, ParsedRequest, response_head_text, should_forward, Agent, Audience, Broadcaster, BufferData,
    Chunker, Client, FixedWriter, MountMatch, Stream, Timestamp, Wire, BACK_BUFFER_LEN, CHUNK_SIZE,
};
use kawa::config::{Codec, Container, StreamConfig};

fn stream_config(mount: &str, container: Container, bitrate: Option<i64>) -> StreamConfig {
    StreamConfig { mount: mount.to_string(), bitrate, container, codec: Codec::Opus }
}

fn frame(bytes: &[u8]) -> BufferData {
    BufferData::Frame { data: bytes.to_vec(), pts: Timestamp { bits: 0 } }
}

#[test]
fn test_footer_transition() {
    let mut c = Chunker::Footer(b"hello world".to_vec());
    let mut v = Wire::new(FixedWriter::new(vec![0u8; 5]));
    c.write(&mut v, &[]).unwrap();
    assert_eq!(v.into_inner().into_inner(), b"hello");
    if let Chunker::Footer(ref rest) = c {
        assert_eq!(rest.as_slice(), b" world");
    } else {
        unreachable!()
    };
}

#[test]
fn a_fresh_chunker_opens_a_chunk_before_the_data() {
    let mut c = Chunker::new();
    let mut w = Wire::new(FixedWriter::new(vec![0u8; 64]));
    assert_eq!(c.write(&mut w, b"abc").unwrap(), Some(3));
    let out = w.into_inner().into_inner();
    assert_eq!(&out[..8], b"400\r\nabc");
    match c {
        Chunker::Body(n) => assert_eq!(n, 3),
        _ => unreachable!(),
    }
}

#[test]
fn a_full_chunk_is_closed_and_the_next_one_opened() {
    let mut c = Chunker::new();
    let mut w = Wire::new(FixedWriter::new(vec![0u8; 2 * CHUNK_SIZE + 64]));
    let data = vec![7u8; CHUNK_SIZE + 2];
    assert_eq!(c.write(&mut w, &data).unwrap(), Some(CHUNK_SIZE + 2));
    let out = w.into_inner().into_inner();
    let mut expected = b"400\r\n".to_vec();
    expected.extend(vec![7u8; CHUNK_SIZE]);
    expected.extend(b"\r\n400\r\n");
    expected.extend([7u8, 7u8]);
    assert_eq!(&out[..expected.len()], expected.as_slice());
}

#[test]
fn a_chunk_header_that_does_not_fit_waits() {
    let mut c = Chunker::new();
    let mut w = Wire::new(FixedWriter::new(vec![0u8; 3]));
    assert_eq!(c.write(&mut w, b"abc").unwrap(), None);
    assert_eq!(w.into_inner().into_inner(), b"400");
    match c {
        Chunker::Header(rest) => assert_eq!(rest, b"\r\n".to_vec()),
        _ => unreachable!(),
    }
}

#[test]
fn a_request_from_mpv_is_recognized() {
    let req = b"GET /stream.opus?user=a HTTP/1.1\r\nUser-Agent: mpv 0.29\r\nHost: radio\r\n\r\n";
    let (path, agent, headers) = process_request(req).unwrap().unwrap();
    assert_eq!(path, "/stream.opus?user=a");
    assert_eq!(agent, Agent::MPV);
    assert_eq!(headers.len(), 2);
    assert_eq!(headers[0].name, "User-Agent");
    assert_eq!(headers[0].value, "mpv 0.29");
    assert_eq!(headers[1].name, "Host");
    assert_eq!(headers[1].value, "radio");
}

#[test]
fn a_request_from_mpd_is_recognized() {
    let req = b"GET /a HTTP/1.1\r\nUser-Agent: mpd/0.20\r\n\r\n";
    let (_, agent, _) = process_request(req).unwrap().unwrap();
    assert_eq!(agent, Agent::MPD);
    let other = b"GET /a HTTP/1.1\r\nUser-Agent: VLC\r\n\r\n";
    let (_, agent, _) = process_request(other).unwrap().unwrap();
    assert_eq!(agent, Agent::Other);
}

#[test]
fn an_unfinished_request_waits_and_garbage_fails() {
    assert!(process_request(b"GET /a HTTP/1.1\r\nHost: x\r\n").unwrap().is_none());
    assert!(process_request(b"\x01\x02 nonsense\r\n\r\n").is_err());
}

#[test]
fn a_header_value_that_is_not_text_becomes_empty() {
    let req = b"GET /a HTTP/1.1\r\nX-Bin: \xff\xfe\r\n\r\n";
    let (_, _, headers) = process_request(req).unwrap().unwrap();
    assert_eq!(headers[0].name, "X-Bin");
    assert_eq!(headers[0].value, "");
}

#[test]
fn mounts_are_found_by_the_end_of_the_resolved_path() {
    let streams = vec![
        stream_config("low.opus", Container::Ogg, Some(64)),
        stream_config("high.opus", Container::Ogg, Some(192)),
    ];
    match find_mount("/radio/high.opus?user=x", &streams) {
        MountMatch::Stream(k) => assert_eq!(k, 1),
        _ => unreachable!(),
    }
    match find_mount("/x/../nothing", &streams) {
        MountMatch::Unknown(m) => assert_eq!(m, "/nothing"),
        _ => unreachable!(),
    }
    assert!(matches!(find_mount("http://[", &streams), MountMatch::BadUrl));
}

#[test]
fn the_response_head_announces_the_stream() {
    let head = response_head_text("kawa radio", &stream_config("s.mp3", Container::MP3, Some(128)));
    assert_eq!(
        head,
        "HTTP/1.1 200 OK\r\nServer: kawa/0.1.0\r\nContent-Type: audio/mpeg\r\nTransfer-Encoding: chunked\r\n\
         Connection: keep-alive\r\nCache-Control: no-cache\r\nx-audiocast-name: kawa radio\r\n\
         x-audiocast-bitrate: 128\r\nicy-name: kawa radio\r\nicy-br: 128\r\n\r\n"
    );
    let head = response_head_text("r", &stream_config("s.flac", Container::FLAC, None));
    assert!(head.contains("Content-Type: audio/flac\r\n"));
    assert!(head.contains("x-audiocast-bitrate: 0\r\n"));
    assert!(head.contains("icy-br: 0\r\n\r\n"));
}

#[test]
fn only_frames_go_to_everyone() {
    assert!(should_forward(&frame(b"x"), Agent::Other));
    assert!(!should_forward(&BufferData::Header(vec![1]), Agent::MPV));
    assert!(should_forward(&BufferData::Trailer(vec![1]), Agent::MPD));
}

#[test]
fn a_stream_keeps_its_header_and_the_latest_pieces() {
    let mut s = Stream::new(stream_config("a", Container::Ogg, None));
    s.record(BufferData::Header(vec![1, 2]));
    assert_eq!(s.header(), &vec![1, 2]);
    for i in 0..(BACK_BUFFER_LEN + 3) {
        s.record(frame(&[(i % 256) as u8]));
    }
    assert_eq!(s.buffer().len(), BACK_BUFFER_LEN);
    assert_eq!(s.buffer()[0], vec![3u8]);
    assert_eq!(s.header(), &vec![1, 2]);
}

#[test]
fn sending_to_a_listener_frames_the_data() {
    let mut c = Client::new(FixedWriter::new(vec![0u8; 32]), Agent::Other);
    assert_eq!(c.send_data(b"hi"), Ok(()));
    assert_eq!(c.send_data(b""), Ok(()));
    assert_eq!(c.conn().written_bytes(), b"400\r\nhi".to_vec());
}

#[test]
fn what_does_not_fit_waits_and_goes_out_later() {
    let mut c = Client::new(FixedWriter::new(vec![0u8; 3]), Agent::Other);
    // Only part of the chunk header fits: the data waits.
    assert_eq!(c.send_data(b"abc"), Ok(()));
    assert_eq!(c.flush_buffer(), Ok(false));
    assert_eq!(c.conn().written_bytes(), b"400".to_vec());
}

#[test]
fn the_welcome_sends_head_header_and_back_buffer() {
    let cfg = stream_config("a.ogg", Container::Ogg, Some(96));
    let mut s = Stream::new(cfg);
    s.record(BufferData::Header(b"H".to_vec()));
    s.record(frame(b"f1"));
    let mut c = Client::new(FixedWriter::new(vec![0u8; 400]), Agent::MPV);
    assert_eq!(c.welcome("st", &s), Ok(()));
    let head = response_head_text("st", s.config());
    let out = c.conn().written_bytes();
    let mut expected = head.into_bytes();
    // The header piece and the recorded pieces (the header was recorded too).
    expected.extend(b"400\r\nHHf1");
    assert_eq!(&out[..expected.len()], expected.as_slice());
}

#[test]
fn a_welcome_whose_head_does_not_fit_fails() {
    let s = Stream::new(stream_config("a.ogg", Container::Ogg, None));
    let mut c = Client::new(FixedWriter::new(vec![0u8; 10]), Agent::Other);
    assert_eq!(c.welcome("st", &s), Err(()));
}

#[test]
fn the_audience_tracks_who_listens_where() {
    let mut a = Audience::new(2);
    a.join(0, 7);
    a.join(1, 8);
    a.join(0, 9);
    let mut l = a.listeners(0);
    l.sort();
    assert_eq!(l, vec![7, 9]);
    a.leave(7);
    assert_eq!(a.listeners(0), vec![9]);
    assert_eq!(a.listeners(1), vec![8]);
}

#[test]
fn the_broadcaster_delivers_and_drops_failed_listeners() {
    let cfgs = vec![stream_config("a.ogg", Container::Ogg, None), stream_config("b.ogg", Container::Ogg, None)];
    let mut b: Broadcaster<FixedWriter> = Broadcaster::new(cfgs, "st".to_string());
    assert_eq!(b.stream_count(), 2);
    match b.mount_for("/b.ogg") {
        MountMatch::Stream(k) => assert_eq!(k, 1),
        _ => unreachable!(),
    }
    assert!(b.open_client(1, 0, Client::new(FixedWriter::new(vec![0u8; 1000]), Agent::Other)).is_ok());
    // A listener whose connection takes nothing is handed back at once.
    assert!(b.open_client(2, 0, Client::new(FixedWriter::new(vec![]), Agent::Other)).is_err());
    assert!(b.has_client(1));
    assert!(!b.has_client(2));
    let gone = b.process_buffer(0, frame(b"xyz"));
    assert!(gone.is_empty());
    assert_eq!(b.stream(0).buffer().len(), 1);
    assert_eq!(b.stream(1).buffer().len(), 0);
    assert!(b.flush_client(1).is_none());
    assert!(b.remove_client(1).is_some());
    assert!(!b.has_client(1));
    assert!(b.remove_client(1).is_none());
}

#[test]
fn a_listener_that_fails_is_dropped_on_the_next_piece() {
    let cfgs = vec![stream_config("a.ogg", Container::Ogg, None)];
    let mut b: Broadcaster<FixedWriter> = Broadcaster::new(cfgs, "st".to_string());
    let head = response_head_text("st", &stream_config("a.ogg", Container::Ogg, None));
    // Room for the head and one chunk header: the first data byte finds
    // the connection full.
    let room = head.len() + 5;
    assert!(b.open_client(4, 0, Client::new(FixedWriter::new(vec![0u8; room]), Agent::Other)).is_ok());
    let gone = b.process_buffer(0, frame(b"data"));
    assert_eq!(gone.len(), 1);
    assert_eq!(gone[0].0, 4);
    assert!(!b.has_client(4));
}

/// A connection that takes at most `room` bytes in all until it is given
/// more room.
struct Gate {
    out: Vec<u8>,
    room: usize,
}

impl kawa::broadcast::Conn for Gate {
    fn write(&mut self, data: &[u8]) -> Result<usize, kawa::broadcast::IoFailure> {
        if self.room == 0 {
            return Err(kawa::broadcast::IoFailure::WouldBlock);
        }
        let n = data.len().min(self.room);
        self.out.extend_from_slice(&data[..n]);
        self.room -= n;
        Ok(n)
    }
}

#[test]
fn waiting_bytes_go_out_once_the_connection_takes_more() {
    let mut c = Client::new(Gate { out: Vec::new(), room: 7 }, Agent::Other);
    // The chunk header and two data bytes fit; the rest waits.
    assert_eq!(c.send_data(b"abcd"), Ok(()));
    assert_eq!(c.conn().out, b"400\r\nab".to_vec());
    // The connection is full: the next piece waits behind the first.
    assert_eq!(c.send_data(b"ef"), Ok(()));
    assert_eq!(c.flush_buffer(), Ok(false));
}

#[test]
fn framing_in_pieces_gives_the_same_bytes_as_at_once() {
    let mut a = Chunker::new();
    let mut wa = Wire::new(FixedWriter::new(vec![0u8; 64]));
    a.write(&mut wa, b"ab").unwrap();
    a.write(&mut wa, b"cd").unwrap();
    let mut b = Chunker::new();
    let mut wb = Wire::new(FixedWriter::new(vec![0u8; 64]));
    b.write(&mut wb, b"abcd").unwrap();
    assert_eq!(wa.conn().written_bytes(), wb.conn().written_bytes());
    assert_eq!(wa.conn().written_bytes(), b"400\r\nabcd".to_vec());
}

#[test]
fn a_parsed_request_keeps_its_non_empty_headers() {
    let parsed = ParsedRequest::Complete {
        path: Some("/a.ogg".to_string()),
        headers: vec![
            ("User-Agent".to_string(), b"mpv 1".to_vec()),
            (String::new(), Vec::new()),
            ("User-Agent".to_string(), b"mpd 2".to_vec()),
        ],
    };
    let (path, agent, headers) = interpret_request(parsed).unwrap().unwrap();
    assert_eq!(path, "/a.ogg");
    // The last User-Agent decides.
    assert_eq!(agent, Agent::MPD);
    assert_eq!(headers.len(), 2);
    assert_eq!(headers[1].value, "mpd 2");
    assert!(interpret_request(ParsedRequest::Complete { path: None, headers: Vec::new() }).is_err());
    assert!(interpret_request(ParsedRequest::Partial).unwrap().is_none());
    assert!(interpret_request(ParsedRequest::Invalid).is_err());
}

#[test]
fn a_resolved_path_picks_the_first_matching_mount() {
    let streams = vec![
        stream_config("a.ogg", Container::Ogg, None),
        stream_config("ba.ogg", Container::Ogg, None),
    ];
    assert!(matches!(match_mount(None, &streams), MountMatch::BadUrl));
    match match_mount(Some("/x/ba.ogg".to_string()), &streams) {
        MountMatch::Stream(k) => assert_eq!(k, 0),
        _ => unreachable!(),
    }
    match match_mount(Some("/zzz".to_string()), &streams) {
        MountMatch::Unknown(m) => assert_eq!(m, "/zzz"),
        _ => unreachable!(),
    }
}

/// Reads chunked encoding as a listener would: each chunk's size line, its
/// body, and the closing line.
fn dechunk(mut b: &[u8]) -> Vec<u8> {
    let mut out = Vec::new();
    loop {
        assert!(b.starts_with(b"400\r\n"));
        b = &b[5..];
        if b.len() <= CHUNK_SIZE {
            out.extend_from_slice(b);
            return out;
        }
        out.extend_from_slice(&b[..CHUNK_SIZE]);
        b = &b[CHUNK_SIZE..];
        assert!(b.starts_with(b"\r\n"));
        b = &b[2..];
    }
}

#[test]
fn chunked_output_decodes_to_the_data() {
    let data: Vec<u8> = (0..2500u32).map(|i| (i % 251) as u8).collect();
    let mut c = Chunker::new();
    let mut w = Wire::new(FixedWriter::new(vec![0u8; 4000]));
    // Sent in uneven pieces.
    assert_eq!(c.write(&mut w, &data[..700]).unwrap(), Some(700));
    assert_eq!(c.write(&mut w, &data[700..2049]).unwrap(), Some(1349));
    assert_eq!(c.write(&mut w, &data[2049..]).unwrap(), Some(451));
    let sent = w.conn().written_bytes();
    assert_eq!(dechunk(&sent), data);
}
