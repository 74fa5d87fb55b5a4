use std::sync::Arc;

use kawa::api::{ApiMessage, QueuePos};
use kawa::config::{ApiConfig, Config, Container, QueueConfig, RadioConfig};
use kawa::json::{Json, JsonObject, JsonValue};
use kawa::queue::{muxer_name, NewQueueEntry, Queue, QueueBuffer, QueueEntry, TcStep, TC_ATTEMPTS};
use kawa::radio::{apply_message, AfterMessage};

fn config() -> Config {
    Config {
        api: ApiConfig { port: 8001 },
        radio: RadioConfig { port: 8000, name: "kawa".to_string() },
        streams: Vec::new(),
        queue: QueueConfig {
            random: "http://localhost/random".to_string(),
            np: "http://localhost/np".to_string(),
            fallback: (Arc::new(vec![1, 2, 3]), "ogg".to_string()),
            buffer_len: 4096,
        },
    }
}

fn song(path: &str) -> NewQueueEntry {
    let mut data = JsonObject::new();
    data.fields.push(("path".to_string(), JsonValue::Str(path.to_string())));
    NewQueueEntry { data, path: path.to_string() }
}

fn paths(q: &Queue) -> Vec<String> {
    q.entries().iter().map(|e| e.path.clone()).collect()
}

fn ids(q: &Queue) -> Vec<u64> {
    q.entries().iter().map(|e| e.id).collect()
}

#[test]
fn songs_are_numbered_in_the_order_they_arrive() {
    let mut q = Queue::new(config());
    assert!(q.push(song("a.mp3")));
    assert!(!q.push(song("b.mp3")));
    assert!(q.push_head(song("c.mp3")));
    assert_eq!(paths(&q), vec!["c.mp3", "a.mp3", "b.mp3"]);
    assert_eq!(ids(&q), vec![3, 1, 2]);
    assert_eq!(q.last_id(), 3);
}

#[test]
fn removing_and_clearing_say_when_to_restart() {
    let mut q = Queue::new(config());
    // An empty queue stays empty, and the transcode starts over.
    assert!(q.pop());
    assert!(q.pop_head());
    assert!(!q.clear());
    q.push(song("a"));
    q.push(song("b"));
    assert!(!q.pop());
    assert_eq!(paths(&q), vec!["a"]);
    assert!(q.pop_head());
    assert!(q.entries().is_empty());
    q.push(song("c"));
    assert!(q.clear());
    assert!(q.entries().is_empty());
}

#[test]
fn the_next_song_comes_from_the_queue_before_the_random_pick() {
    let mut q = Queue::new(config());
    let e = q.next_buffer(Some(song("random.ogg"))).unwrap();
    assert_eq!(e.path, "random.ogg");
    assert_eq!(e.id, 1);
    assert!(q.next_buffer(None).is_none());
    q.push(song("queued.flac"));
    let e = q.next_buffer(Some(song("random.ogg"))).unwrap();
    assert_eq!(e.path, "queued.flac");
    assert_eq!(e.id, 2);
    assert_eq!(q.last_id(), 2);
}

#[test]
fn the_search_falls_back_after_five_attempts() {
    let mut q = Queue::new(config());
    match q.tc_step(0, None) {
        TcStep::Retry => {}
        _ => unreachable!(),
    }
    q.push(song("dir.v2/song.opus"));
    match q.tc_step(1, None) {
        TcStep::Try(e, ext) => {
            assert_eq!(e.path, "dir.v2/song.opus");
            assert_eq!(ext, "opus");
        }
        _ => unreachable!(),
    }
    match q.tc_step(TC_ATTEMPTS, None) {
        TcStep::Fallback(e) => {
            assert_eq!(e.path, "fallback");
            assert_eq!(e.id, 2);
            assert!(e.data.fields.is_empty());
        }
        _ => unreachable!(),
    }
}

#[test]
fn the_transcoded_song_becomes_the_one_playing() {
    let mut q = Queue::new(config());
    q.push(song("a"));
    q.push(song("b"));
    let head = q.next_queue_buffer().unwrap();
    q.set_next(head, Vec::new());
    let bufs = q.get_next_tc();
    assert!(bufs.is_empty());
    assert_eq!(q.np().entry().path, "a");
    assert_eq!(paths(&q), vec!["b"]);
    // The playing song is no longer at the head: nothing more is dropped.
    let bufs = q.get_next_tc();
    assert!(bufs.is_empty());
    assert_eq!(q.np().entry().path, "");
    assert_eq!(paths(&q), vec!["b"]);
}

#[test]
fn a_blob_needs_a_string_path() {
    let mut o = JsonObject::new();
    o.fields.push(("title".to_string(), JsonValue::Str("x".to_string())));
    o.fields.push(("path".to_string(), JsonValue::Str("/m/a.mp3".to_string())));
    let e = NewQueueEntry::deserialize(Json::Object(o)).unwrap();
    assert_eq!(e.path, "/m/a.mp3");
    assert_eq!(e.data.fields.len(), 2);

    let mut o = JsonObject::new();
    o.fields.push(("path".to_string(), JsonValue::Other("3".to_string())));
    assert!(NewQueueEntry::deserialize(Json::Object(o)).is_none());
    assert!(NewQueueEntry::deserialize(Json::Other("[]".to_string())).is_none());
    assert!(NewQueueEntry::deserialize(Json::Object(JsonObject::new())).is_none());
}

#[test]
fn an_entry_serializes_to_its_blob() {
    let e = QueueEntry { id: 4, data: song("p").data, path: "p".to_string() };
    match e.serialize() {
        Json::Object(o) => {
            assert_eq!(o.fields.len(), 1);
            assert_eq!(o.fields[0].0, "path");
        }
        _ => unreachable!(),
    }
    let empty = QueueBuffer::empty();
    assert_eq!(empty.entry().id, 0);
    assert_eq!(QueueEntry::empty().path, "");
}

#[test]
fn each_container_has_its_muxer() {
    assert_eq!(muxer_name(Container::Ogg), "ogg");
    assert_eq!(muxer_name(Container::MP3), "mp3");
    assert_eq!(muxer_name(Container::FLAC), "flac");
    assert_eq!(muxer_name(Container::AAC), "adts");
}

#[test]
fn messages_from_the_api_change_the_queue() {
    let mut q = Queue::new(config());
    assert!(matches!(
        apply_message(&mut q, ApiMessage::Insert(QueuePos::Tail, song("a"))),
        AfterMessage::Continue { restart_transcode: true }
    ));
    assert!(matches!(
        apply_message(&mut q, ApiMessage::Insert(QueuePos::Tail, song("b"))),
        AfterMessage::Continue { restart_transcode: false }
    ));
    assert!(matches!(
        apply_message(&mut q, ApiMessage::Insert(QueuePos::Head, song("c"))),
        AfterMessage::Continue { restart_transcode: true }
    ));
    assert_eq!(paths(&q), vec!["c", "a", "b"]);
    assert!(matches!(apply_message(&mut q, ApiMessage::Skip), AfterMessage::EndSong));
    assert_eq!(paths(&q), vec!["c", "a", "b"]);
    assert!(matches!(
        apply_message(&mut q, ApiMessage::Remove(QueuePos::Head)),
        AfterMessage::Continue { restart_transcode: true }
    ));
    assert!(matches!(
        apply_message(&mut q, ApiMessage::Remove(QueuePos::Tail)),
        AfterMessage::Continue { restart_transcode: false }
    ));
    assert_eq!(paths(&q), vec!["a"]);
    assert!(matches!(apply_message(&mut q, ApiMessage::Clear), AfterMessage::Continue { restart_transcode: true }));
    assert!(q.entries().is_empty());
}

#[test]
fn adding_then_removing_at_the_same_end_undoes_it() {
    let mut q = Queue::new(config());
    q.push(song("x"));
    q.push(song("y"));
    let before = paths(&q);
    apply_message(&mut q, ApiMessage::Insert(QueuePos::Tail, song("z")));
    apply_message(&mut q, ApiMessage::Remove(QueuePos::Tail));
    assert_eq!(paths(&q), before);
    apply_message(&mut q, ApiMessage::Insert(QueuePos::Head, song("w")));
    apply_message(&mut q, ApiMessage::Remove(QueuePos::Head));
    assert_eq!(paths(&q), before);
    assert_eq!(ids(&q), vec![1, 2]);
}
