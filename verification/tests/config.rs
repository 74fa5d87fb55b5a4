use kawa::config::{
    convert_streams, fallback_ok, ApiConfig, Codec, Container, InternalConfig, InternalQueueConfig,
    InternalStreamConfig, RadioConfig,
};

fn stream(container: &str, codec: Option<&str>, bitrate: Option<usize>) -> InternalStreamConfig {
    InternalStreamConfig {
        mount: "m".to_string(),
        bitrate,
        container: container.to_string(),
        codec: codec.map(|c| c.to_string()),
    }
}

fn internal(streams: Vec<InternalStreamConfig>, fallback: &str) -> InternalConfig {
    InternalConfig {
        api: ApiConfig { port: 8001 },
        radio: RadioConfig { port: 8000, name: "kawa".to_string() },
        streams,
        queue: InternalQueueConfig {
            random: "r".to_string(),
            np: "n".to_string(),
            fallback: fallback.to_string(),
            buffer_len: 7,
        },
    }
}

#[test]
fn containers_pick_a_default_codec() {
    let s = convert_streams(&vec![
        stream("ogg", None, Some(128)),
        stream("mp3", None, None),
        stream("aac", None, None),
        stream("flac", None, None),
        stream("ogg", Some("vorbis"), None),
    ])
    .unwrap();
    assert_eq!(s[0].codec, Codec::Opus);
    assert_eq!(s[0].bitrate, Some(128));
    assert_eq!(s[0].container, Container::Ogg);
    assert_eq!(s[1].codec, Codec::Mp3);
    assert_eq!(s[2].codec, Codec::Aac);
    assert_eq!(s[3].codec, Codec::Flac);
    assert_eq!(s[4].codec, Codec::Vorbis);
    assert_eq!(s[1].bitrate, None);
}

#[test]
fn unknown_names_are_refused_with_the_first_error() {
    let e = convert_streams(&vec![stream("ogg", None, None), stream("wav", None, None)]).unwrap_err();
    assert_eq!(e, "Currently, only ogg, mp3, aac, and flac are supported as containers.");
    let e = convert_streams(&vec![stream("ogg", Some("speex"), None), stream("wav", None, None)]).unwrap_err();
    assert_eq!(e, "Currently, only opus, vorbis, flac, aac, and mp3 are supported as codecs.");
}

#[test]
fn the_fallback_must_be_ogg_mp3_or_flac() {
    assert!(fallback_ok("/music/fallback.ogg"));
    assert!(fallback_ok("x.y.flac"));
    assert!(fallback_ok("mp3"));
    assert!(!fallback_ok("fallback.wav"));
    assert!(!fallback_ok("fallback.ogg.bak"));
}

#[test]
fn a_valid_configuration_keeps_its_settings() {
    let c = internal(vec![stream("mp3", None, Some(320))], "/f/fallback.flac").into_config(vec![9, 9]).unwrap();
    assert_eq!(c.api.port, 8001);
    assert_eq!(c.radio.name, "kawa");
    assert_eq!(c.streams.len(), 1);
    assert_eq!(*c.queue.fallback.0, vec![9, 9]);
    assert_eq!(c.queue.fallback.1, "flac");
    assert_eq!(c.queue.buffer_len, 7);
    assert_eq!(c.queue.random, "r");
    let e = internal(vec![stream("opus", None, None)], "f.ogg").into_config(Vec::new());
    assert!(e.is_err());
}
