use std::sync::Arc;

use kawa::api::{
    finish_insert, handle_request, route, url_path, ApiMessage, Handled, Header, Listener, QueuePos, Resp,
    ResponseBody, Route,
};
use kawa::config::{ApiConfig, Config, QueueConfig, RadioConfig};
use kawa::json::{Json, JsonObject, JsonValue};
use kawa::queue::{NewQueueEntry, Queue};

fn config() -> Config {
    Config {
        api: ApiConfig { port: 8001 },
        radio: RadioConfig { port: 8000, name: "kawa".to_string() },
        streams: Vec::new(),
        queue: QueueConfig {
            random: "r".to_string(),
            np: "n".to_string(),
            fallback: (Arc::new(Vec::new()), "mp3".to_string()),
            buffer_len: 1,
        },
    }
}

fn blob(path: Option<&str>) -> JsonObject {
    let mut o = JsonObject::new();
    o.fields.push(("title".to_string(), JsonValue::Str("t".to_string())));
    if let Some(p) = path {
        o.fields.push(("path".to_string(), JsonValue::Str(p.to_string())));
    }
    o
}

fn song(path: &str) -> NewQueueEntry {
    NewQueueEntry { data: blob(Some(path)), path: path.to_string() }
}

fn is_success(body: &ResponseBody) -> bool {
    matches!(body, ResponseBody::Resp(Resp { success: true, reason: None }))
}

fn failure_reason(body: &ResponseBody) -> Option<String> {
    match body {
        ResponseBody::Resp(Resp { success: false, reason: Some(r) }) => Some(r.clone()),
        _ => None,
    }
}

#[test]
fn routes_follow_the_documented_endpoints() {
    assert_eq!(route("GET", "/np"), Route::Np);
    assert_eq!(route("GET", "/listeners"), Route::Listeners);
    assert_eq!(route("GET", "/queue"), Route::Queue);
    assert_eq!(route("POST", "/queue/head"), Route::Insert(QueuePos::Head));
    assert_eq!(route("POST", "/queue/tail"), Route::Insert(QueuePos::Tail));
    assert_eq!(route("DELETE", "/queue/head"), Route::Remove(QueuePos::Head));
    assert_eq!(route("DELETE", "/queue/tail"), Route::Remove(QueuePos::Tail));
    assert_eq!(route("POST", "/skip"), Route::Skip);
    assert_eq!(route("POST", "/queue/clear"), Route::Clear);
    assert_eq!(route("GET", "/skip"), Route::NotFound);
    assert_eq!(route("PUT", "/queue"), Route::NotFound);
}

#[test]
fn the_query_string_is_not_part_of_the_path() {
    assert_eq!(url_path("/queue?x=1?y"), "/queue");
    assert_eq!(url_path("/np"), "/np");
    assert_eq!(url_path("?"), "");
}

#[test]
fn reads_answer_with_what_is_there() {
    let mut q = Queue::new(config());
    q.push(song("a.mp3"));
    q.push(song("b.mp3"));
    match handle_request("GET", "/queue?pretty", &q, Vec::new(), None) {
        Handled::Reply(r, None) => {
            assert_eq!(r.status, 200);
            match r.body {
                ResponseBody::Objects(v) => {
                    assert_eq!(v.len(), 2);
                    assert_eq!(v[1].fields[1].0, "path");
                }
                _ => unreachable!(),
            }
        }
        _ => unreachable!(),
    }
    match handle_request("GET", "/np", &q, Vec::new(), None) {
        Handled::Reply(r, None) => {
            assert_eq!(r.status, 200);
            assert!(matches!(r.body, ResponseBody::Object(ref o) if o.fields.is_empty()));
        }
        _ => unreachable!(),
    }
    let l = vec![Listener {
        mount: "a.ogg".to_string(),
        path: "/a.ogg?u=1".to_string(),
        headers: vec![Header { name: "Host".to_string(), value: "h".to_string() }],
    }];
    match handle_request("GET", "/listeners", &q, l, None) {
        Handled::Reply(r, None) => match r.body {
            ResponseBody::Listeners(v) => {
                assert_eq!(v.len(), 1);
                assert_eq!(v[0].path, "/a.ogg?u=1");
            }
            _ => unreachable!(),
        },
        _ => unreachable!(),
    }
}

#[test]
fn inserts_need_json_with_a_path() {
    let q = Queue::new(config());
    match handle_request("POST", "/queue/head", &q, Vec::new(), None) {
        Handled::Reply(r, None) => {
            assert_eq!(r.status, 400);
            assert_eq!(failure_reason(&r.body).unwrap(), "malformed json sent");
        }
        _ => unreachable!(),
    }
    match handle_request("POST", "/queue/tail", &q, Vec::new(), Some(Json::Object(blob(None)))) {
        Handled::Reply(r, None) => {
            assert_eq!(r.status, 400);
            assert_eq!(failure_reason(&r.body).unwrap(), "blob must contain path!");
        }
        _ => unreachable!(),
    }
    match handle_request("POST", "/queue/tail", &q, Vec::new(), Some(Json::Object(blob(Some("/s.ogg"))))) {
        Handled::CheckPath(QueuePos::Tail, e) => assert_eq!(e.path, "/s.ogg"),
        _ => unreachable!(),
    }
}

#[test]
fn an_insert_of_a_missing_file_fails() {
    let (r, m) = finish_insert(QueuePos::Head, song("/nope"), false);
    assert_eq!(r.status, 400);
    assert_eq!(failure_reason(&r.body).unwrap(), "file does not exist");
    assert!(m.is_none());
    let (r, m) = finish_insert(QueuePos::Head, song("/yes"), true);
    assert_eq!(r.status, 200);
    assert!(is_success(&r.body));
    assert!(matches!(m, Some(ApiMessage::Insert(QueuePos::Head, ref e)) if e.path == "/yes"));
}

#[test]
fn changes_go_to_the_radio_loop() {
    let q = Queue::new(config());
    for (method, path, expected) in [
        ("DELETE", "/queue/head", "remove head"),
        ("DELETE", "/queue/tail", "remove tail"),
        ("POST", "/skip", "skip"),
        ("POST", "/queue/clear", "clear"),
    ] {
        match handle_request(method, path, &q, Vec::new(), None) {
            Handled::Reply(r, Some(m)) => {
                assert_eq!(r.status, 200);
                assert!(is_success(&r.body));
                let got = match m {
                    ApiMessage::Remove(QueuePos::Head) => "remove head",
                    ApiMessage::Remove(QueuePos::Tail) => "remove tail",
                    ApiMessage::Skip => "skip",
                    ApiMessage::Clear => "clear",
                    ApiMessage::Insert(..) => "insert",
                };
                assert_eq!(got, expected);
            }
            _ => unreachable!(),
        }
    }
    match handle_request("GET", "/nothing", &q, Vec::new(), None) {
        Handled::Reply(r, None) => {
            assert_eq!(r.status, 404);
            assert!(matches!(r.body, ResponseBody::Empty));
        }
        _ => unreachable!(),
    }
}
