//! Model resolution and the decoding decisions.

use harken::audio::{
    decode_route, max_frame_samples, needs_resample, parse_opus_head, route_for_extension,
    samples_to_skip, DecodeRoute, OpusHead,
};
use harken::model::{cache_dir, is_known_name, model_cache_path, resolve_model, ModelSource};

#[test]
fn known_model_names() {
    assert!(is_known_name("small"));
    assert!(is_known_name("large-v3-turbo"));
    assert!(is_known_name("base.en-q5_1"));
    assert!(!is_known_name("huge"));
    assert!(!is_known_name("small-q4_0"));
}

#[test]
fn cache_dir_prefers_an_absolute_xdg_cache_home() {
    assert_eq!(cache_dir(Some("/xdg".to_string()), Some("/home/u".to_string())), "/xdg/harken/models");
    assert_eq!(cache_dir(Some("rel".to_string()), Some("/home/u".to_string())), "/home/u/.cache/harken/models");
    assert_eq!(cache_dir(None, Some("/home/u".to_string())), "/home/u/.cache/harken/models");
}

#[test]
fn resolve_model_cases() {
    match resolve_model("/m/custom.bin", true, "/c", false).unwrap() {
        ModelSource::Given(p) => assert_eq!(p, "/m/custom.bin"),
        other => panic!("unexpected {other:?}"),
    }
    match resolve_model("small", false, "/c", true).unwrap() {
        ModelSource::Cached(p) => assert_eq!(p, "/c/ggml-small.bin"),
        other => panic!("unexpected {other:?}"),
    }
    match resolve_model("tiny.en", false, "/c", false).unwrap() {
        ModelSource::Download { url, dest, partial } => {
            assert_eq!(url, "https://huggingface.co/ggerganov/whisper.cpp/resolve/main/ggml-tiny.en.bin");
            assert_eq!(dest, "/c/ggml-tiny.en.bin");
            assert_eq!(partial, "/c/ggml-tiny.en.bin.partial");
        }
        other => panic!("unexpected {other:?}"),
    }
    let err = resolve_model("huge", false, "/c", false).unwrap_err();
    assert!(err.starts_with("invalid model 'huge': expected a path"));
    assert_eq!(model_cache_path("/c/", "base"), "/c/ggml-base.bin");
}

#[test]
fn decode_routes_by_extension() {
    assert_eq!(decode_route("a/b.OPUS"), DecodeRoute::Opus);
    assert_eq!(decode_route("a/b.ogg"), DecodeRoute::SymphoniaThenOpus);
    assert_eq!(decode_route("a/b.oga"), DecodeRoute::SymphoniaThenOpus);
    assert_eq!(decode_route("a/b.mp3"), DecodeRoute::Symphonia);
    assert_eq!(decode_route("noext"), DecodeRoute::Symphonia);
}

#[test]
fn opus_head_parsing() {
    let mut head = b"OpusHead".to_vec();
    head.extend_from_slice(&[1, 2, 0x38, 0x01, 0x80, 0xBB, 0, 0, 0, 0, 0]);
    assert_eq!(parse_opus_head(&head, "x.opus"), Ok(OpusHead { channels: 2, pre_skip_48k: 312 }));

    assert_eq!(parse_opus_head(b"OggS", "x.opus"), Err("not an opus stream: x.opus".to_string()));
    let mut six = b"OpusHead".to_vec();
    six.extend_from_slice(&[1, 6, 0, 0]);
    assert_eq!(parse_opus_head(&six, "x.opus"), Err("unsupported opus channel count: 6".to_string()));
}

#[test]
fn opus_decoding_arithmetic() {
    assert_eq!(max_frame_samples(2), 3840);
    assert_eq!(samples_to_skip(312, 1000), 104);
    assert_eq!(samples_to_skip(312, 50), 50);
    assert!(!needs_resample(16_000));
    assert!(needs_resample(44_100));
}

#[test]
fn route_for_lower_cased_extensions() {
    assert_eq!(route_for_extension("opus"), DecodeRoute::Opus);
    assert_eq!(route_for_extension("OPUS"), DecodeRoute::Symphonia);
    assert_eq!(route_for_extension("oga"), DecodeRoute::SymphoniaThenOpus);
    assert_eq!(route_for_extension(""), DecodeRoute::Symphonia);
}
