//! Reading the 16-bit samples of a WAV file for an MP3 encoder, which takes
//! them one frame (one sample per channel) at a time.
use vstd::prelude::*;

verus! {

/// What `hound` decodes from the bytes of a WAV file as 16-bit integer
/// samples: the number of channels, the sample rate and the interleaved
/// samples; or, when it refuses the header, the text of its error, and when
/// a sample cannot be read, no text.
pub uninterp spec fn wav_pcm(bytes: Seq<u8>) -> Result<(u16, u32, Seq<i16>), Option<Seq<char>>>;

/// Decodes a WAV file held in memory with `hound::WavReader::new` on a
/// cursor over the bytes (its error shown with `to_string`), then reads
/// every sample as an `i16` with `WavReader::samples`. The result is named
/// `wav_pcm`; nothing more is claimed of it.
#[verifier::external_body]
fn parse_wav_pcm(bytes: &[u8]) -> (r: Result<(u16, u32, Vec<i16>), Option<String>>)
    ensures
        match wav_pcm(bytes@) {
            Ok((c, rate, s)) => r matches Ok((c2, rate2, s2)) && c2 == c && rate2 == rate && s2@ == s,
            Err(e) => r matches Err(e2) && (e2 is Some <==> e is Some) && (e2 is Some ==> e2->0@ == e->0),
        },
{
    let mut reader = match hound::WavReader::new(std::io::Cursor::new(bytes)) {
        Ok(reader) => reader,
        Err(err) => return Err(Some(err.to_string())),
    };
    let spec = reader.spec();
    match reader.samples::<i16>().collect::<Result<Vec<i16>, hound::Error>>() {
        Ok(samples) => Ok((spec.channels, spec.sample_rate, samples)),
        Err(_) => Err(None),
    }
}

/// The number of frames of `n` samples on `c` channels: the last frame may
/// be short.
pub open spec fn frame_count(n: nat, c: nat) -> nat {
    if n % c == 0 { n / c } else { n / c + 1 }
}

/// The samples cut into frames of `c` samples, the last one holding what is left.
pub open spec fn frames_of(s: Seq<i16>, c: nat) -> Seq<Seq<i16>> {
    Seq::new(
        frame_count(s.len(), c),
        |k: int| s.subrange(k * c, if (k + 1) * c <= s.len() { (k + 1) * c } else { s.len() as int }),
    )
}

/// Cuts interleaved samples into frames of `channels` samples each, the last
/// frame holding what is left.
pub fn pcm_frames(samples: &Vec<i16>, channels: u16) -> (r: Vec<Vec<i16>>)
    requires
        channels > 0,
    ensures
        r@.len() == frame_count(samples@.len(), channels as nat),
        forall|k: int| 0 <= k < r@.len() ==> (#[trigger] r@[k])@ == frames_of(samples@, channels as nat)[k],
{
    let c = channels as usize;
    let n = samples.len();
    let ghost fr = frames_of(samples@, c as nat);
    let mut out: Vec<Vec<i16>> = Vec::new();
    let mut start: usize = 0;
    proof {
        if n > 0 {
            assert(frame_count(n as nat, c as nat) > 0) by (nonlinear_arith)
                requires c > 0, n > 0, frame_count(n as nat, c as nat) == (if n % c == 0 { n as int / c as int } else { n as int / c as int + 1 });
        }
    }
    while start < n
        invariant
            c == channels as usize,
            c > 0,
            n == samples@.len(),
            fr == frames_of(samples@, c as nat),
            start <= n,
            start < n ==> start == out@.len() * c && out@.len() < frame_count(n as nat, c as nat),
            start == n ==> out@.len() == frame_count(n as nat, c as nat),
            forall|k: int| 0 <= k < out@.len() ==> (#[trigger] out@[k])@ == fr[k],
        decreases n - start,
    {
        let k = out.len();
        let end = if n - start >= c { start + c } else { n };
        let mut frame: Vec<i16> = Vec::new();
        let mut j: usize = start;
        while j < end
            invariant
                start <= j <= end <= n,
                n == samples@.len(),
                frame@ == samples@.subrange(start as int, j as int),
            decreases end - j,
        {
            frame.push(samples[j]);
            assert(samples@.subrange(start as int, j + 1) =~= samples@.subrange(start as int, j as int).push(samples@[j as int]));
            j = j + 1;
        }
        proof {
            assert((k + 1) * c == start + c) by (nonlinear_arith)
                requires start == k * c;
            assert(frame@ == fr[k as int]);
        }
        out.push(frame);
        start = end;
        proof {
            if end == n {
                assert(out@.len() == frame_count(n as nat, c as nat)) by (nonlinear_arith)
                    requires
                        c > 0,
                        n <= (k + 1) * c,
                        k * c < n,
                        out@.len() == k + 1,
                        frame_count(n as nat, c as nat) == (if n % c == 0 { n as int / c as int } else { n as int / c as int + 1 });
            } else {
                assert(out@.len() < frame_count(n as nat, c as nat)) by (nonlinear_arith)
                    requires
                        c > 0,
                        (k + 1) * c < n,
                        out@.len() == k + 1,
                        frame_count(n as nat, c as nat) == (if n % c == 0 { n as int / c as int } else { n as int / c as int + 1 });
            }
        }
    }
    out
}

/// The PCM data of a WAV file as the MP3 encoder takes it: the number of
/// channels, the sample rate and the samples cut into frames of one sample
/// per channel. When `hound` refuses the header, the text of its error;
/// when a sample cannot be read (or `hound` reports no channel), no text
/// (see `wav_pcm`).
pub fn wav_pcm_frames(bytes: &[u8]) -> (r: Result<(u16, u32, Vec<Vec<i16>>), Option<String>>)
    ensures
        match wav_pcm(bytes@) {
            Ok((pc, prate, ps)) => if pc == 0 {
                r matches Err(e) && e is None
            } else {
                r matches Ok((c, rate, frames)) && c == pc && rate == prate
                    && frames@.len() == frame_count(ps.len(), pc as nat)
                    && forall|k: int| 0 <= k < frames@.len() ==> (#[trigger] frames@[k])@ == frames_of(ps, pc as nat)[k]
            },
            Err(e) => r matches Err(e2) && (e2 is Some <==> e is Some) && (e2 is Some ==> e2->0@ == e->0),
        },
{
    match parse_wav_pcm(bytes) {
        Ok((c, rate, samples)) => {
            if c == 0 {
                Err(None)
            } else {
                let frames = pcm_frames(&samples, c);
                Ok((c, rate, frames))
            }
        },
        Err(e) => Err(e),
    }
}

} // verus!
