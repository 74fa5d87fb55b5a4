use std::sync::Arc;
use vstd::prelude::*;

use crate::text::{after_last_dot, extension, str_eq};

verus! {

/// The audio codecs a stream can be encoded with.
#[derive(Clone, Copy, PartialEq, Eq, Structural, Debug)]
pub enum Codec {
    Opus,
    Vorbis,
    Flac,
    Mp3,
    Aac,
}

/// The containers a stream can be muxed into.
#[derive(Clone, Copy, PartialEq, Eq, Structural, Debug)]
pub enum Container {
    Ogg,
    MP3,
    AAC,
    FLAC,
}

#[derive(Clone, Debug)]
pub struct Config {
    pub api: ApiConfig,
    pub radio: RadioConfig,
    pub streams: Vec<StreamConfig>,
    pub queue: QueueConfig,
}

#[derive(Clone, Debug)]
pub struct StreamConfig {
    pub mount: String,
    pub bitrate: Option<i64>,
    pub container: Container,
    pub codec: Codec,
}

#[derive(Clone, Debug)]
pub struct RadioConfig {
    pub port: u16,
    pub name: String,
}

#[derive(Clone, Debug)]
pub struct ApiConfig {
    pub port: u16,
}

#[derive(Debug)]
pub struct QueueConfig {
    pub random: String,
    pub np: String,
    pub fallback: (Arc<Vec<u8>>, String),
    pub buffer_len: usize,
}

impl Clone for QueueConfig {
    fn clone(&self) -> (r: QueueConfig)
        ensures
            r.random@ == self.random@,
            r.np@ == self.np@,
            *r.fallback.0 == *self.fallback.0,
            r.fallback.1@ == self.fallback.1@,
            r.buffer_len == self.buffer_len,
    {
        QueueConfig {
            random: self.random.clone(),
            np: self.np.clone(),
            fallback: (Arc::clone(&self.fallback.0), self.fallback.1.clone()),
            buffer_len: self.buffer_len,
        }
    }
}

/// The configuration as written in the file, before its names are checked.
pub struct InternalConfig {
    pub api: ApiConfig,
    pub radio: RadioConfig,
    pub streams: Vec<InternalStreamConfig>,
    pub queue: InternalQueueConfig,
}

pub struct InternalStreamConfig {
    pub mount: String,
    pub bitrate: Option<usize>,
    pub container: String,
    pub codec: Option<String>,
}

pub struct InternalQueueConfig {
    pub random: String,
    pub np: String,
    pub fallback: String,
    pub buffer_len: usize,
}

/// The container a name in the file stands for.
pub open spec fn container_named(s: Seq<char>) -> Option<Container> {
    if s == "ogg"@ {
        Some(Container::Ogg)
    } else if s == "mp3"@ {
        Some(Container::MP3)
    } else if s == "aac"@ {
        Some(Container::AAC)
    } else if s == "flac"@ {
        Some(Container::FLAC)
    } else {
        None
    }
}

/// The codec a name in the file stands for.
pub open spec fn codec_named(s: Seq<char>) -> Option<Codec> {
    if s == "opus"@ {
        Some(Codec::Opus)
    } else if s == "vorbis"@ {
        Some(Codec::Vorbis)
    } else if s == "flac"@ {
        Some(Codec::Flac)
    } else if s == "mp3"@ {
        Some(Codec::Mp3)
    } else if s == "aac"@ {
        Some(Codec::Aac)
    } else {
        None
    }
}

/// The codec used when a stream names none.
pub open spec fn default_codec(c: Container) -> Codec {
    match c {
        Container::Ogg => Codec::Opus,
        Container::MP3 => Codec::Mp3,
        Container::AAC => Codec::Aac,
        Container::FLAC => Codec::Flac,
    }
}

pub open spec fn container_error() -> Seq<char> {
    "Currently, only ogg, mp3, aac, and flac are supported as containers."@
}

pub open spec fn codec_error() -> Seq<char> {
    "Currently, only opus, vorbis, flac, aac, and mp3 are supported as codecs."@
}

/// Whether a stream as written names a known container and, if any, a known codec.
pub open spec fn stream_error(s: InternalStreamConfig) -> Option<Seq<char>> {
    if container_named(s.container@) is None {
        Some(container_error())
    } else if s.codec is Some && codec_named(s.codec.unwrap()@) is None {
        Some(codec_error())
    } else {
        None
    }
}

/// The first error among the streams, in order.
pub open spec fn first_stream_error(s: Seq<InternalStreamConfig>) -> Option<Seq<char>>
    decreases s.len(),
{
    if s.len() == 0 {
        None
    } else if stream_error(s[0]) is Some {
        stream_error(s[0])
    } else {
        first_stream_error(s.subrange(1, s.len() as int))
    }
}

/// What a checked stream is made of a valid one as written.
pub open spec fn converts_to(i: InternalStreamConfig, o: StreamConfig) -> bool {
    let c = container_named(i.container@).unwrap();
    &&& o.mount@ == i.mount@
    &&& o.bitrate == match i.bitrate {
        Some(b) => Some(b as i64),
        None => None,
    }
    &&& o.container == c
    &&& o.codec == match i.codec {
        Some(n) => codec_named(n@).unwrap(),
        None => default_codec(c),
    }
}

fn container_from(s: &String) -> (r: Option<Container>)
    ensures
        r == container_named(s@),
{
    if str_eq(s.as_str(), "ogg") {
        Some(Container::Ogg)
    } else if str_eq(s.as_str(), "mp3") {
        Some(Container::MP3)
    } else if str_eq(s.as_str(), "aac") {
        Some(Container::AAC)
    } else if str_eq(s.as_str(), "flac") {
        Some(Container::FLAC)
    } else {
        None
    }
}

fn codec_from(s: &String) -> (r: Option<Codec>)
    ensures
        r == codec_named(s@),
{
    if str_eq(s.as_str(), "opus") {
        Some(Codec::Opus)
    } else if str_eq(s.as_str(), "vorbis") {
        Some(Codec::Vorbis)
    } else if str_eq(s.as_str(), "flac") {
        Some(Codec::Flac)
    } else if str_eq(s.as_str(), "mp3") {
        Some(Codec::Mp3)
    } else if str_eq(s.as_str(), "aac") {
        Some(Codec::Aac)
    } else {
        None
    }
}

proof fn lemma_first_error_prefix(s: Seq<InternalStreamConfig>, k: int)
    requires
        0 <= k < s.len(),
        forall|j: int| 0 <= j < k ==> stream_error(#[trigger] s[j]) is None,
    ensures
        first_stream_error(s) == if stream_error(s[k]) is Some {
            stream_error(s[k])
        } else {
            first_stream_error(s.subrange(k + 1, s.len() as int))
        },
    decreases k,
{
    if k > 0 {
        let t = s.subrange(1, s.len() as int);
        assert forall|j: int| 0 <= j < k - 1 implies stream_error(#[trigger] t[j]) is None by {
            assert(t[j] == s[j + 1]);
        }
        lemma_first_error_prefix(t, k - 1);
        assert(t[k - 1] == s[k]);
        assert(t.subrange(k, t.len() as int) =~= s.subrange(k + 1, s.len() as int));
    }
}

/// Checks each stream as written and turns it into a stream configuration;
/// the first stream naming an unknown container or codec gives its error.
pub fn convert_streams(streams: &Vec<InternalStreamConfig>) -> (r: Result<Vec<StreamConfig>, String>)
    ensures
        match r {
            Ok(v) => first_stream_error(streams@) is None && v@.len() == streams@.len() && forall|i: int|
                0 <= i < v@.len() ==> converts_to(streams@[i], #[trigger] v@[i]),
            Err(e) => first_stream_error(streams@) == Some(e@),
        },
{
    let mut out: Vec<StreamConfig> = Vec::new();
    let mut k: usize = 0;
    while k < streams.len()
        invariant
            k <= streams@.len(),
            out@.len() == k,
            forall|j: int| 0 <= j < k ==> stream_error(#[trigger] streams@[j]) is None,
            forall|j: int| 0 <= j < k ==> converts_to(streams@[j], #[trigger] out@[j]),
        decreases streams@.len() - k,
    {
        let s = &streams[k];
        proof {
            lemma_first_error_prefix(streams@, k as int);
        }
        let container = match container_from(&s.container) {
            Some(c) => c,
            None => {
                return Err(String::from_str(
                    "Currently, only ogg, mp3, aac, and flac are supported as containers.",
                ));
            },
        };
        let codec = match &s.codec {
            Some(c) => match codec_from(c) {
                Some(c) => c,
                None => {
                    return Err(String::from_str(
                        "Currently, only opus, vorbis, flac, aac, and mp3 are supported as codecs.",
                    ));
                },
            },
            None => match container {
                Container::Ogg => Codec::Opus,
                Container::MP3 => Codec::Mp3,
                Container::AAC => Codec::Aac,
                Container::FLAC => Codec::Flac,
            },
        };
        let bitrate = match s.bitrate {
            Some(b) => Some(b as i64),
            None => None,
        };
        out.push(StreamConfig { mount: s.mount.clone(), bitrate, container, codec });
        k = k + 1;
    }
    proof {
        assert forall|j: int| 0 <= j < streams@.len() implies stream_error(#[trigger] streams@[j]) is None by {}
        lemma_no_errors(streams@);
    }
    Ok(out)
}

proof fn lemma_no_errors(s: Seq<InternalStreamConfig>)
    requires
        forall|j: int| 0 <= j < s.len() ==> stream_error(#[trigger] s[j]) is None,
    ensures
        first_stream_error(s) is None,
    decreases s.len(),
{
    if s.len() > 0 {
        let t = s.subrange(1, s.len() as int);
        assert forall|j: int| 0 <= j < t.len() implies stream_error(#[trigger] t[j]) is None by {
            assert(t[j] == s[j + 1]);
        }
        lemma_no_errors(t);
    }
}

/// Whether the fallback file's name ends in an extension the fallback may have.
pub open spec fn fallback_extension_ok(fallback: Seq<char>) -> bool {
    let e = after_last_dot(fallback);
    e == "ogg"@ || e == "mp3"@ || e == "flac"@
}

pub fn fallback_ok(fallback: &str) -> (r: bool)
    ensures
        r == fallback_extension_ok(fallback@),
{
    let e = extension(fallback);
    str_eq(e.as_str(), "ogg") || str_eq(e.as_str(), "mp3") || str_eq(e.as_str(), "flac")
}

impl InternalConfig {
    /// Checks the streams and builds the configuration, holding the
    /// fallback's contents, which the caller has read from the file the
    /// configuration names.
    pub fn into_config(self, fallback_data: Vec<u8>) -> (r: Result<Config, String>)
        requires
            first_stream_error(self.streams@) is None ==> fallback_extension_ok(self.queue.fallback@),
        ensures
            match r {
                Ok(c) => {
                    &&& first_stream_error(self.streams@) is None
                    &&& c.api == self.api
                    &&& c.radio == self.radio
                    &&& c.streams@.len() == self.streams@.len()
                    &&& forall|i: int|
                        0 <= i < c.streams@.len() ==> converts_to(self.streams@[i], #[trigger] c.streams@[i])
                    &&& c.queue.random == self.queue.random
                    &&& c.queue.np == self.queue.np
                    &&& *c.queue.fallback.0 == fallback_data
                    &&& c.queue.fallback.1@ == after_last_dot(self.queue.fallback@)
                    &&& c.queue.buffer_len == self.queue.buffer_len
                },
                Err(e) => first_stream_error(self.streams@) == Some(e@),
            },
    {
        let streams = match convert_streams(&self.streams) {
            Ok(s) => s,
            Err(e) => return Err(e),
        };
        let fbp = extension(self.queue.fallback.as_str());
        Ok(Config {
            api: self.api,
            radio: self.radio,
            streams,
            queue: QueueConfig {
                random: self.queue.random,
                np: self.queue.np,
                fallback: (Arc::new(fallback_data), fbp),
                buffer_len: self.queue.buffer_len,
            },
        })
    }
}

} // verus!

verus! {

/// A stream as written in the file becomes a stream with the container and
/// codec of the same names: "ogg", "mp3", "aac" and "flac" give the Ogg,
/// MP3, AAC and FLAC containers; "opus", "vorbis", "flac", "mp3" and "aac"
/// give the Opus, Vorbis, FLAC, MP3 and AAC codecs; a stream naming no codec
/// gets Opus in Ogg, MP3 in MP3, AAC in AAC and FLAC in FLAC.
pub proof fn law_stream_names(i: InternalStreamConfig, o: StreamConfig)
    requires
        stream_error(i) is None,
        converts_to(i, o),
    ensures
        i.container@ == "ogg"@ ==> o.container == Container::Ogg,
        i.container@ == "mp3"@ ==> o.container == Container::MP3,
        i.container@ == "aac"@ ==> o.container == Container::AAC,
        i.container@ == "flac"@ ==> o.container == Container::FLAC,
        i.codec matches Some(n) && n@ == "opus"@ ==> o.codec == Codec::Opus,
        i.codec matches Some(n) && n@ == "vorbis"@ ==> o.codec == Codec::Vorbis,
        i.codec matches Some(n) && n@ == "flac"@ ==> o.codec == Codec::Flac,
        i.codec matches Some(n) && n@ == "mp3"@ ==> o.codec == Codec::Mp3,
        i.codec matches Some(n) && n@ == "aac"@ ==> o.codec == Codec::Aac,
        i.codec is None ==> o.codec == match o.container {
            Container::Ogg => Codec::Opus,
            Container::MP3 => Codec::Mp3,
            Container::AAC => Codec::Aac,
            Container::FLAC => Codec::Flac,
        },
{
    reveal_strlit("ogg");
    reveal_strlit("mp3");
    reveal_strlit("aac");
    reveal_strlit("flac");
    reveal_strlit("opus");
    reveal_strlit("vorbis");
    assert("mp3"@[0] != "ogg"@[0]);
    assert("aac"@[0] != "ogg"@[0] && "aac"@[0] != "mp3"@[0]);
    assert("vorbis"@[0] != "opus"@[0]);
    assert("flac"@[0] != "opus"@[0] && "flac"@[0] != "vorbis"@[0]);
    assert("mp3"@[0] != "opus"@[0] && "mp3"@[0] != "vorbis"@[0] && "mp3"@[0] != "flac"@[0]);
    assert("aac"@[0] != "opus"@[0] && "aac"@[0] != "vorbis"@[0] && "aac"@[0] != "flac"@[0]);
}

/// No two names stand for one container, nor for one codec: each name
/// known is the name of what it stands for, and no other.
pub proof fn law_names_distinct(a: Seq<char>, b: Seq<char>)
    ensures
        container_named(a) is Some && container_named(a) == container_named(b) ==> a == b,
        codec_named(a) is Some && codec_named(a) == codec_named(b) ==> a == b,
{
    reveal_strlit("ogg");
    reveal_strlit("mp3");
    reveal_strlit("aac");
    reveal_strlit("flac");
    reveal_strlit("opus");
    reveal_strlit("vorbis");
}

} // verus!
