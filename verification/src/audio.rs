//! Decisions of audio decoding that do not touch samples: which decoder a
//! file goes to, the Ogg Opus identification header, and how much of the
//! decoded signal is pre-skip.

use vstd::prelude::*;

use crate::path::{extension, extension_of};
use crate::text::{chars_of, decimal, decimal_chars, same_chars, to_lower, string_from_chars, to_lowercase};

verus! {

/// Whisper's input rate, in samples per second.
pub const WHISPER_SAMPLE_RATE: u32 = 16000;

/// Which decoder a file goes to.
#[derive(Debug, Clone, Copy, PartialEq, Eq, Structural)]
pub enum DecodeRoute {
    /// libopus at 16 kHz.
    Opus,
    /// symphonia, resampled to 16 kHz when needed.
    Symphonia,
    /// symphonia, and libopus if that fails (Ogg may carry Opus, which
    /// symphonia demuxes but cannot decode).
    SymphoniaThenOpus,
}

/// The lower-cased extension of a path, or empty.
pub open spec fn lower_extension(path: Seq<char>) -> Seq<char> {
    match extension(path) {
        Some(e) => to_lower(e),
        None => Seq::empty(),
    }
}

pub open spec fn decode_route_spec(path: Seq<char>) -> DecodeRoute {
    extension_route(lower_extension(path))
}

/// The route for a lower-cased extension.
pub open spec fn extension_route(e: Seq<char>) -> DecodeRoute {
    if e == "opus"@ {
        DecodeRoute::Opus
    } else if e == "ogg"@ || e == "oga"@ {
        DecodeRoute::SymphoniaThenOpus
    } else {
        DecodeRoute::Symphonia
    }
}

/// The lower-cased extension of `path` (empty when it has none), which is
/// also the format hint given to symphonia.
pub fn lower_extension_of(path: &str) -> (r: String)
    ensures
        r@ == lower_extension(path@),
{
    match extension_of(&chars_of(path)) {
        Some(e) => to_lowercase(string_from_chars(&e).as_str()),
        None => string_from_chars(&Vec::new()),
    }
}

/// How the file at `path` is decoded, by its extension in any case.
pub fn decode_route(path: &str) -> (r: DecodeRoute)
    ensures
        r == decode_route_spec(path@),
{
    route_for_extension(lower_extension_of(path).as_str())
}

/// How a file with this lower-cased extension is decoded.
pub fn route_for_extension(lower: &str) -> (r: DecodeRoute)
    ensures
        r == extension_route(lower@),
{
    let e = chars_of(lower);
    if same_chars(&e, &chars_of("opus")) {
        DecodeRoute::Opus
    } else if same_chars(&e, &chars_of("ogg")) || same_chars(&e, &chars_of("oga")) {
        DecodeRoute::SymphoniaThenOpus
    } else {
        DecodeRoute::Symphonia
    }
}

/// What the `OpusHead` packet says: channel count and pre-skip (in 48 kHz
/// samples).
#[derive(Debug, Clone, Copy, PartialEq, Eq, Structural)]
pub struct OpusHead {
    pub channels: u8,
    pub pre_skip_48k: u16,
}

/// `OpusHead`
pub open spec fn opus_magic() -> Seq<u8> {
    seq![0x4Fu8, 0x70u8, 0x75u8, 0x73u8, 0x48u8, 0x65u8, 0x61u8, 0x64u8]
}

pub open spec fn opus_head_spec(data: Seq<u8>, path: Seq<char>) -> Result<OpusHead, Seq<char>> {
    if data.len() < 12 || data.subrange(0, 8) != opus_magic() {
        Err("not an opus stream: "@ + path)
    } else if data[9] != 1 && data[9] != 2 {
        Err("unsupported opus channel count: "@ + decimal(data[9] as nat))
    } else {
        Ok(OpusHead { channels: data[9], pre_skip_48k: (data[10] + data[11] * 256) as u16 })
    }
}

/// Read the identification header, the first packet of an Ogg Opus
/// stream: it must start with `OpusHead` and be mono or stereo.
pub fn parse_opus_head(data: &[u8], path: &str) -> (r: Result<OpusHead, String>)
    ensures
        match (r, opus_head_spec(data@, path@)) {
            (Ok(h), Ok(h2)) => h == h2,
            (Err(m), Err(m2)) => m@ == m2,
            _ => false,
        },
{
    let n = data.len();
    let magic_ok = n >= 12 && data[0] == 0x4Fu8 && data[1] == 0x70u8 && data[2] == 0x75u8 && data[3]
        == 0x73u8 && data[4] == 0x48u8 && data[5] == 0x65u8 && data[6] == 0x61u8 && data[7] == 0x64u8;
    proof {
        if n >= 12 {
            if magic_ok {
                assert(data@.subrange(0, 8) =~= opus_magic());
            } else {
                let m = data@.subrange(0, 8);
                if m == opus_magic() {
                    assert(m[0] == data@[0] && m[1] == data@[1] && m[2] == data@[2] && m[3] == data@[3]);
                    assert(m[4] == data@[4] && m[5] == data@[5] && m[6] == data@[6] && m[7] == data@[7]);
                }
            }
        }
    }
    if !magic_ok {
        let mut v = chars_of("not an opus stream: ");
        let mut p = chars_of(path);
        v.append(&mut p);
        return Err(string_from_chars(&v));
    }
    let channels = data[9];
    if channels != 1 && channels != 2 {
        let mut v = chars_of("unsupported opus channel count: ");
        let mut d = decimal_chars(channels as u128);
        v.append(&mut d);
        return Err(string_from_chars(&v));
    }
    let pre_skip = (data[10] as u16) + (data[11] as u16) * 256;
    Ok(OpusHead { channels, pre_skip_48k: pre_skip })
}

/// The most samples one packet decodes to: 120 ms at 16 kHz, per channel.
pub fn max_frame_samples(channels: u8) -> (r: usize)
    ensures
        r == 1920 * channels,
{
    1920 * (channels as usize)
}

/// How many decoded 16 kHz samples to drop: the pre-skip rescaled from
/// 48 kHz, rounding down, but never more than were decoded.
pub fn samples_to_skip(pre_skip_48k: u16, decoded: usize) -> (r: usize)
    ensures
        r == if (pre_skip_48k * 16000) / 48000 <= decoded {
            (pre_skip_48k * 16000) / 48000
        } else {
            decoded as int
        },
{
    let skip = pre_skip_48k as usize * WHISPER_SAMPLE_RATE as usize / 48_000;
    if skip <= decoded {
        skip
    } else {
        decoded
    }
}

/// Whether decoded audio must be resampled to reach 16 kHz.
pub fn needs_resample(sample_rate: u32) -> (r: bool)
    ensures
        r == (sample_rate != 16000),
{
    sample_rate != WHISPER_SAMPLE_RATE
}

} // verus!
