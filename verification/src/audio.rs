//! Sample-level audio processing: channel downmix and WAV encoding for
//! upload.
use vstd::prelude::*;

verus! {

/// Sum of the samples of `s`.
pub open spec fn sum_i16(s: Seq<i16>) -> int
    decreases s.len(),
{
    if s.len() == 0 {
        0
    } else {
        sum_i16(s.drop_last()) + s.last() as int
    }
}

/// Integer division rounding toward zero (Rust's `/` on signed integers).
pub open spec fn div_toward_zero(a: int, d: int) -> int {
    if a >= 0 {
        a / d
    } else {
        -((-a) / d)
    }
}

/// The mono signal: frame `k` is the average of its `channels` samples,
/// rounded toward zero; a trailing incomplete frame is dropped. One channel
/// passes through unchanged.
pub open spec fn downmix_spec(data: Seq<i16>, channels: nat) -> Seq<i16> {
    if channels == 1 {
        data
    } else {
        Seq::new(
            data.len() / channels,
            |k: int|
                div_toward_zero(
                    sum_i16(data.subrange(k * channels, k * channels + channels)),
                    channels as int,
                ) as i16,
        )
    }
}

proof fn lemma_sum_bounds(s: Seq<i16>)
    ensures
        -32768 * s.len() <= sum_i16(s) <= 32767 * s.len(),
    decreases s.len(),
{
    if s.len() > 0 {
        lemma_sum_bounds(s.drop_last());
    }
}

proof fn lemma_frame_fits(k: int, frames: int, ch: int, len: int)
    requires
        0 <= k < frames,
        ch > 0,
        len >= 0,
        frames == len / ch,
    ensures
        k * ch + ch <= len,
{
    vstd::arithmetic::div_mod::lemma_fundamental_div_mod(len, ch);
    vstd::arithmetic::div_mod::lemma_mod_bound(len, ch);
    assert(k * ch + ch <= len) by (nonlinear_arith)
        requires
            0 <= k < frames,
            ch > 0,
            len == ch * frames + len % ch,
            0 <= len % ch,
    ;
}

/// Averages interleaved frames of `channels` samples into mono.
pub fn downmix_i16(data: &[i16], channels: usize) -> (out: Vec<i16>)
    requires
        1 <= channels <= 65535,
    ensures
        out@ == downmix_spec(data@, channels as nat),
{
    if channels == 1 {
        let mut out: Vec<i16> = Vec::new();
        let mut i: usize = 0;
        while i < data.len()
            invariant
                i <= data@.len(),
                out@ == data@.take(i as int),
            decreases data@.len() - i,
        {
            out.push(data[i]);
            i = i + 1;
            assert(out@ =~= data@.take(i as int));
        }
        assert(data@.take(data@.len() as int) =~= data@);
        return out;
    }
    let n = data.len();
    let frames = n / channels;
    let mut out: Vec<i16> = Vec::new();
    let mut k: usize = 0;
    while k < frames
        invariant
            2 <= channels <= 65535,
            n == data@.len(),
            frames == data@.len() as int / channels as int,
            k <= frames,
            out@.len() == k,
            forall|q: int| 0 <= q < k ==> #[trigger] out@[q] == downmix_spec(data@, channels as nat)[q],
        decreases frames - k,
    {
        proof {
            lemma_frame_fits(k as int, frames as int, channels as int, data@.len() as int);
        }
        let base = k * channels;
        let mut sum: i32 = 0;
        let mut c: usize = 0;
        while c < channels
            invariant
                2 <= channels <= 65535,
                n == data@.len(),
                base + channels <= n,
                c <= channels,
                sum == sum_i16(data@.subrange(base as int, base + c)),
                -32768 * c <= sum <= 32767 * c,
            decreases channels - c,
        {
            assert(data@.subrange(base as int, base + c + 1).drop_last() =~= data@.subrange(base as int, base + c));
            sum = sum + data[base + c] as i32;
            c = c + 1;
        }
        let ch = channels as i32;
        let avg = if sum >= 0 {
            sum / ch
        } else {
            -((-sum) / ch)
        };
        proof {
            lemma_sum_bounds(data@.subrange(base as int, base + channels));
            if sum >= 0 {
                vstd::arithmetic::div_mod::lemma_div_is_ordered(sum as int, 32767 * channels as int, channels as int);
                vstd::arithmetic::div_mod::lemma_div_multiples_vanish(32767, channels as int);
            } else {
                vstd::arithmetic::div_mod::lemma_div_is_ordered(-sum as int, 32768 * channels as int, channels as int);
                vstd::arithmetic::div_mod::lemma_div_multiples_vanish(32768, channels as int);
            }
        }
        out.push(avg as i16);
        k = k + 1;
    }
    assert(out@ =~= downmix_spec(data@, channels as nat));
    out
}

/// Declares hound's error type.
#[verifier::external_type_specification]
#[verifier::external_body]
pub struct ExHoundError(hound::Error);

/// `x` as 4 little-endian bytes.
pub open spec fn le32(x: nat) -> Seq<u8> {
    seq![(x % 256) as u8, ((x / 256) % 256) as u8, ((x / 65536) % 256) as u8, ((x / 16777216) % 256) as u8]
}

/// `x` as 2 little-endian bytes (two's complement).
pub open spec fn le16(x: int) -> Seq<u8> {
    let u: int = if x < 0 { x + 65536 } else { x };
    seq![(u % 256) as u8, ((u / 256) % 256) as u8]
}

/// The samples as consecutive little-endian 16-bit words.
pub open spec fn pcm16_bytes(samples: Seq<i16>) -> Seq<u8>
    decreases samples.len(),
{
    if samples.len() == 0 {
        Seq::empty()
    } else {
        pcm16_bytes(samples.drop_last()) + le16(samples.last() as int)
    }
}

/// A 16-bit mono PCM WAV file: the 44-byte RIFF header (a 16-byte `fmt `
/// chunk with format 1, one channel, the rate, `2 * rate` bytes per second,
/// block align 2, 16 bits) followed by the `data` chunk.
pub open spec fn wav_mono16(samples: Seq<i16>, rate: nat) -> Seq<u8> {
    let data_len = 2 * samples.len();
    "RIFF"@.map_values(|c: char| c as u8) + le32(36 + data_len) + "WAVE"@.map_values(|c: char| c as u8)
        + "fmt "@.map_values(|c: char| c as u8) + le32(16) + le16(1) + le16(1) + le32(rate) + le32(2 * rate)
        + le16(2) + le16(16) + "data"@.map_values(|c: char| c as u8) + le32(data_len) + pcm16_bytes(samples)
}

/// Encodes 16-bit mono PCM samples as a WAV file with `hound`
/// (`WavWriter::new` over an in-memory cursor, `write_sample` for each
/// sample, `finalize`). Writing to memory cannot fail, so the result is
/// `Ok` with the bytes hound's writer lays down for this format, as read
/// from its `write_headers`, `write_pcmwaveformat`, `write_sample` and
/// `update_header`.
#[verifier::external_body]
fn hound_encode_mono16(samples: &[i16], sample_rate: u32) -> (r: Result<Vec<u8>, hound::Error>)
    requires
        sample_rate > 0,
        2 * sample_rate <= u32::MAX,
        2 * samples@.len() + 36 <= u32::MAX,
    ensures
        r is Ok,
        r->Ok_0@ == wav_mono16(samples@, sample_rate as nat),
{
    let spec = hound::WavSpec {
        channels: 1,
        sample_rate,
        bits_per_sample: 16,
        sample_format: hound::SampleFormat::Int,
    };
    let mut cursor = std::io::Cursor::new(Vec::new());
    {
        let mut w = hound::WavWriter::new(&mut cursor, spec)?;
        for s in samples {
            w.write_sample(*s)?;
        }
        w.finalize()?;
    }
    Ok(cursor.into_inner())
}

/// Encodes 16-bit mono PCM as a WAV byte buffer.
pub fn encode_wav(samples: &[i16], sample_rate: u32) -> (bytes: Vec<u8>)
    requires
        sample_rate > 0,
        2 * sample_rate <= u32::MAX,
        2 * samples@.len() + 36 <= u32::MAX,
    ensures
        bytes@ == wav_mono16(samples@, sample_rate as nat),
{
    match hound_encode_mono16(samples, sample_rate) {
        Ok(bytes) => bytes,
        Err(_) => Vec::new(),
    }
}

} // verus!
