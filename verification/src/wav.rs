//! The one WAV format everything is written in: 16-bit mono at the model's rate.

use crate::audio::SAMPLE_RATE;
use vstd::prelude::*;

verus! {

/// How samples are written.
#[derive(Debug, Clone, Copy, PartialEq, Eq, Structural)]
pub struct WavFormat {
    pub channels: u16,
    pub sample_rate: u32,
    pub bits_per_sample: u16,
}

/// The format of all that is written.
pub fn wav_spec() -> (f: WavFormat)
    ensures
        f.channels == 1,
        f.sample_rate == SAMPLE_RATE,
        f.bits_per_sample == 16,
{
    WavFormat { channels: 1, sample_rate: SAMPLE_RATE, bits_per_sample: 16 }
}

/// Two bytes of a number, low byte first.
pub open spec fn low16(n: int) -> Seq<u8> {
    seq![(n % 256) as u8, (n / 256 % 256) as u8]
}

/// Four bytes of a number, low byte first.
pub open spec fn low32(n: int) -> Seq<u8> {
    seq![
        (n % 256) as u8,
        (n / 256 % 256) as u8,
        (n / 65536 % 256) as u8,
        (n / 16777216 % 256) as u8,
    ]
}

/// The header of a WAV stream whose length is not known, which players take from a
/// pipe: uncompressed 16-bit mono.
pub open spec fn stream_start() -> Seq<u8> {
    seq![82u8, 73u8, 70u8, 70u8] + low32(0xffff_ffff) + seq![
        87u8,
        65u8,
        86u8,
        69u8,
        102u8,
        109u8,
        116u8,
        32u8,
    ] + low32(16) + low16(1) + low16(1) + low32(SAMPLE_RATE as int) + low32(2 * SAMPLE_RATE)
        + low16(2) + low16(16) + seq![100u8, 97u8, 116u8, 97u8] + low32(0xffff_ffff)
}

fn push32(out: &mut Vec<u8>, n: u32)
    ensures
        final(out)@ == old(out)@ + low32(n as int),
{
    let ghost before = out@;
    out.push((n % 256) as u8);
    out.push((n / 256 % 256) as u8);
    out.push((n / 65536 % 256) as u8);
    out.push((n / 16777216 % 256) as u8);
    assert(out@ =~= before + low32(n as int));
}

fn push16(out: &mut Vec<u8>, n: u16)
    ensures
        final(out)@ == old(out)@ + low16(n as int),
{
    let ghost before = out@;
    out.push((n % 256) as u8);
    out.push((n / 256 % 256) as u8);
    assert(out@ =~= before + low16(n as int));
}

fn push_tag(out: &mut Vec<u8>, a: u8, b: u8, c: u8, d: u8)
    ensures
        final(out)@ == old(out)@ + seq![a, b, c, d],
{
    let ghost before = out@;
    out.push(a);
    out.push(b);
    out.push(c);
    out.push(d);
    assert(out@ =~= before + seq![a, b, c, d]);
}

/// The header of a WAV stream.
pub fn stream_header() -> (r: Vec<u8>)
    ensures
        r@ == stream_start(),
        r.len() == 44,
{
    let mut out: Vec<u8> = Vec::new();
    push_tag(&mut out, 82, 73, 70, 70);
    push32(&mut out, 0xffff_ffff);
    push_tag(&mut out, 87, 65, 86, 69);
    push_tag(&mut out, 102, 109, 116, 32);
    push32(&mut out, 16);
    push16(&mut out, 1);
    push16(&mut out, 1);
    push32(&mut out, SAMPLE_RATE);
    push32(&mut out, 2 * SAMPLE_RATE);
    push16(&mut out, 2);
    push16(&mut out, 16);
    push_tag(&mut out, 100, 97, 116, 97);
    push32(&mut out, 0xffff_ffff);
    assert(out@ =~= stream_start());
    out
}

/// The header of a stream, byte by byte: the RIFF and WAVE tags, a format chunk of 16 bytes
/// that says PCM, one channel, 24000 samples and 48000 bytes a second, two bytes a sample,
/// 16 bits, and a data chunk; the two lengths are left open, as large as can be.
pub proof fn lemma_stream_begins()
    ensures
        stream_start() == seq![
            82u8, 73, 70, 70, 255, 255, 255, 255, 87, 65, 86, 69, 102, 109, 116, 32, 16, 0, 0, 0, 1,
            0, 1, 0, 0xc0, 0x5d, 0, 0, 0x80, 0xbb, 0, 0, 2, 0, 16, 0, 100, 97, 116, 97, 255, 255,
            255, 255,
        ],
{
    assert(SAMPLE_RATE == 24000);
}

/// Numbers are written low byte first: the bytes make up the number again.
pub proof fn lemma_low_byte_first(n: int)
    requires
        0 <= n,
    ensures
        low16(n).len() == 2,
        n < 0x1_0000 ==> low16(n)[0] + 256 * low16(n)[1] == n,
        low32(n).len() == 4,
        n < 0x1_0000_0000 ==> low32(n)[0] + 256 * low32(n)[1] + 65536 * low32(n)[2] + 16777216
            * low32(n)[3] == n,
{
}

} // verus!
