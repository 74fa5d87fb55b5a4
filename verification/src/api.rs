use vstd::prelude::*;

use crate::json::{Json, JsonObject, JsonValueView};
use crate::queue::{entries_view, EntryView, NewQueueEntry, Queue, QueueEntry};
use crate::text::str_eq;

verus! {

/// Which end of the queue a request is about.
#[derive(Clone, Copy, PartialEq, Eq, Structural, Debug)]
pub enum QueuePos {
    Head,
    Tail,
}

/// A change to the play queue asked for through the API, carried out by the
/// radio loop.
pub enum ApiMessage {
    Skip,
    Remove(QueuePos),
    Insert(QueuePos, NewQueueEntry),
    Clear,
}

/// The answer to a request that changes something.
pub struct Resp {
    pub success: bool,
    pub reason: Option<String>,
}

/// A client listening to a mount.
#[derive(Clone, Debug)]
pub struct Listener {
    pub mount: String,
    pub path: String,
    pub headers: Vec<Header>,
}

/// A request header, as a listener sent it.
#[derive(Clone, Debug)]
pub struct Header {
    pub name: String,
    pub value: String,
}

impl Resp {
    pub fn success() -> (r: Resp)
        ensures
            r.success,
            r.reason is None,
    {
        Resp { success: true, reason: None }
    }

    pub fn failure(reason: &str) -> (r: Resp)
        ensures
            !r.success,
            r.reason matches Some(s) && s@ == reason@,
    {
        Resp { success: false, reason: Some(String::from_str(reason)) }
    }
}

/// The endpoints of the API.
#[derive(Clone, Copy, PartialEq, Eq, Structural, Debug)]
pub enum Route {
    Np,
    Listeners,
    Queue,
    Insert(QueuePos),
    Remove(QueuePos),
    Skip,
    Clear,
    NotFound,
}

/// The endpoint a method and a path (the URL up to any `?`) select.
pub open spec fn route_of(method: Seq<char>, path: Seq<char>) -> Route {
    if method == "GET"@ && path == "/np"@ {
        Route::Np
    } else if method == "GET"@ && path == "/listeners"@ {
        Route::Listeners
    } else if method == "GET"@ && path == "/queue"@ {
        Route::Queue
    } else if method == "POST"@ && path == "/queue/head"@ {
        Route::Insert(QueuePos::Head)
    } else if method == "DELETE"@ && path == "/queue/head"@ {
        Route::Remove(QueuePos::Head)
    } else if method == "POST"@ && path == "/queue/tail"@ {
        Route::Insert(QueuePos::Tail)
    } else if method == "DELETE"@ && path == "/queue/tail"@ {
        Route::Remove(QueuePos::Tail)
    } else if method == "POST"@ && path == "/skip"@ {
        Route::Skip
    } else if method == "POST"@ && path == "/queue/clear"@ {
        Route::Clear
    } else {
        Route::NotFound
    }
}

/// The URL up to its first `?`.
pub open spec fn before_query(url: Seq<char>) -> Seq<char> {
    if exists|i: int| 0 <= i < url.len() && url[i] == '?' {
        url.subrange(0, choose|i: int| 0 <= i < url.len() && url[i] == '?' && forall|j: int|
            0 <= j < i ==> url[j] != '?')
    } else {
        url
    }
}

/// The path of a URL: everything before the query string.
pub fn url_path(url: &str) -> (p: String)
    ensures
        p@ == before_query(url@),
{
    let n = url.unicode_len();
    let mut k: usize = 0;
    while k < n && url.get_char(k) != '?'
        invariant
            n == url@.len(),
            k <= n,
            forall|j: int| 0 <= j < k ==> url@[j] != '?',
        decreases n - k,
    {
        k = k + 1;
    }
    proof {
        if k < n {
            let i = choose|i: int| 0 <= i < url@.len() && url@[i] == '?' && forall|j: int|
                0 <= j < i ==> url@[j] != '?';
            assert(url@[k as int] == '?');
            assert(i == k) by {
                if i < k {
                    assert(url@[i] != '?');
                }
                if i > k {
                    assert(url@[k as int] != '?');
                }
            }
        } else {
            assert(url@.subrange(0, n as int) =~= url@);
        }
    }
    String::from_str(url.substring_char(0, k))
}

/// Picks the endpoint for a request.
pub fn route(method: &str, path: &str) -> (r: Route)
    ensures
        r == route_of(method@, path@),
{
    let get = str_eq(method, "GET");
    let post = str_eq(method, "POST");
    let delete = str_eq(method, "DELETE");
    if get && str_eq(path, "/np") {
        Route::Np
    } else if get && str_eq(path, "/listeners") {
        Route::Listeners
    } else if get && str_eq(path, "/queue") {
        Route::Queue
    } else if post && str_eq(path, "/queue/head") {
        Route::Insert(QueuePos::Head)
    } else if delete && str_eq(path, "/queue/head") {
        Route::Remove(QueuePos::Head)
    } else if post && str_eq(path, "/queue/tail") {
        Route::Insert(QueuePos::Tail)
    } else if delete && str_eq(path, "/queue/tail") {
        Route::Remove(QueuePos::Tail)
    } else if post && str_eq(path, "/skip") {
        Route::Skip
    } else if post && str_eq(path, "/queue/clear") {
        Route::Clear
    } else {
        Route::NotFound
    }
}

/// What a response carries, rendered as JSON by the server.
pub enum ResponseBody {
    /// One JSON object.
    Object(JsonObject),
    /// A JSON array of objects.
    Objects(Vec<JsonObject>),
    /// A JSON array of listeners.
    Listeners(Vec<Listener>),
    /// A success or failure answer.
    Resp(Resp),
    /// No body.
    Empty,
}

/// An HTTP status and what to send with it.
pub struct Response {
    pub status: u16,
    pub body: ResponseBody,
}

/// The outcome of handling a request: a response (with, for a change to
/// the queue, the message for the radio loop), or, for an insert, the
/// entry whose file must be checked before answering (see [`finish_insert`]).
pub enum Handled {
    Reply(Response, Option<ApiMessage>),
    CheckPath(QueuePos, NewQueueEntry),
}

pub open spec fn is_success(resp: ResponseBody) -> bool {
    resp matches ResponseBody::Resp(r) && r.success && r.reason is None
}

pub open spec fn is_failure(resp: ResponseBody, reason: Seq<char>) -> bool {
    match resp {
        ResponseBody::Resp(r) => !r.success && (r.reason matches Some(s) && s@ == reason),
        _ => false,
    }
}

pub open spec fn objects_view(v: Seq<JsonObject>) -> Seq<Seq<(Seq<char>, JsonValueView)>> {
    Seq::new(v.len(), |i: int| v[i]@)
}

pub open spec fn entry_blobs(v: Seq<EntryView>) -> Seq<Seq<(Seq<char>, JsonValueView)>> {
    Seq::new(v.len(), |i: int| v[i].data)
}

/// Handles one API request. `body` is the request body read as JSON, or
/// `None` when it is not JSON; only inserts look at it.
pub fn handle_request(
    method: &str,
    url: &str,
    queue: &Queue,
    listeners: Vec<Listener>,
    body: Option<Json>,
) -> (h: Handled)
    ensures
        ({
            let path = before_query(url@);
            match route_of(method@, path) {
                Route::Np => match h {
                    Handled::Reply(r, None) => r.status == 200 && (r.body matches ResponseBody::Object(o)
                        && o@ == queue.spec_np().data),
                    _ => false,
                },
                Route::Listeners => match h {
                    Handled::Reply(r, None) => r.status == 200 && (r.body matches ResponseBody::Listeners(l)
                        && l@ == listeners@),
                    _ => false,
                },
                Route::Queue => match h {
                    Handled::Reply(r, None) => r.status == 200 && (r.body matches ResponseBody::Objects(v)
                        && objects_view(v@) == entry_blobs(queue.spec_entries())),
                    _ => false,
                },
                Route::Insert(pos) => match body {
                    None => h matches Handled::Reply(r, None) && r.status == 400 && is_failure(
                        r.body,
                        "malformed json sent"@,
                    ),
                    Some(j) => if NewQueueEntry::accepts(j, None) {
                        h matches Handled::Reply(r, None) && r.status == 400 && is_failure(
                            r.body,
                            "blob must contain path!"@,
                        )
                    } else {
                        h matches Handled::CheckPath(p, e) && p == pos && NewQueueEntry::accepts(j, Some(e))
                    },
                },
                Route::Remove(pos) => h matches Handled::Reply(r, Some(ApiMessage::Remove(p))) && p == pos
                    && r.status == 200 && is_success(r.body),
                Route::Skip => h matches Handled::Reply(r, Some(ApiMessage::Skip)) && r.status == 200
                    && is_success(r.body),
                Route::Clear => h matches Handled::Reply(r, Some(ApiMessage::Clear)) && r.status == 200
                    && is_success(r.body),
                Route::NotFound => h matches Handled::Reply(r, None) && r.status == 404
                    && r.body is Empty,
            }
        }),
{
    let path = url_path(url);
    match route(method, path.as_str()) {
        Route::Np => {
            let o = match queue.np().entry().serialize() {
                Json::Object(o) => o,
                Json::Other(_) => JsonObject::new(),
            };
            Handled::Reply(Response { status: 200, body: ResponseBody::Object(o) }, None)
        },
        Route::Listeners => {
            Handled::Reply(Response { status: 200, body: ResponseBody::Listeners(listeners) }, None)
        },
        Route::Queue => {
            let entries = queue.entries();
            let mut out: Vec<JsonObject> = Vec::new();
            let mut k: usize = 0;
            while k < entries.len()
                invariant
                    k <= entries@.len(),
                    entries_view(entries@) == queue.spec_entries(),
                    out@.len() == k,
                    forall|i: int| 0 <= i < k ==> (#[trigger] out@[i])@ == entries@[i].data@,
                decreases entries@.len() - k,
            {
                let o = match entries[k].serialize() {
                    Json::Object(o) => o,
                    Json::Other(_) => JsonObject::new(),
                };
                out.push(o);
                k = k + 1;
            }
            proof {
                assert(objects_view(out@) =~= entry_blobs(queue.spec_entries()));
            }
            Handled::Reply(Response { status: 200, body: ResponseBody::Objects(out) }, None)
        },
        Route::Insert(pos) => match body {
            None => Handled::Reply(
                Response { status: 400, body: ResponseBody::Resp(Resp::failure("malformed json sent")) },
                None,
            ),
            Some(j) => {
                match NewQueueEntry::deserialize(j) {
                    Some(e) => Handled::CheckPath(pos, e),
                    None => Handled::Reply(
                        Response {
                            status: 400,
                            body: ResponseBody::Resp(Resp::failure("blob must contain path!")),
                        },
                        None,
                    ),
                }
            },
        },
        Route::Remove(pos) => Handled::Reply(
            Response { status: 200, body: ResponseBody::Resp(Resp::success()) },
            Some(ApiMessage::Remove(pos)),
        ),
        Route::Skip => Handled::Reply(
            Response { status: 200, body: ResponseBody::Resp(Resp::success()) },
            Some(ApiMessage::Skip),
        ),
        Route::Clear => Handled::Reply(
            Response { status: 200, body: ResponseBody::Resp(Resp::success()) },
            Some(ApiMessage::Clear),
        ),
        Route::NotFound => Handled::Reply(Response { status: 404, body: ResponseBody::Empty }, None),
    }
}

/// Answers an insert once it is known whether the entry's file exists: if
/// it does, the insert goes to the radio loop and succeeds; if not, it fails.
pub fn finish_insert(pos: QueuePos, entry: NewQueueEntry, exists: bool) -> (r: (Response, Option<ApiMessage>))
    ensures
        exists ==> r.0.status == 200 && is_success(r.0.body) && (r.1 matches Some(ApiMessage::Insert(p, e))
            && p == pos && e == entry),
        !exists ==> r.0.status == 400 && is_failure(r.0.body, "file does not exist"@) && r.1 is None,
{
    if exists {
        (Response { status: 200, body: ResponseBody::Resp(Resp::success()) }, Some(ApiMessage::Insert(pos, entry)))
    } else {
        (Response { status: 400, body: ResponseBody::Resp(Resp::failure("file does not exist")) }, None)
    }
}

} // verus!
