//! WAV framing: the 44-byte header of a 16 kHz mono 16-bit file, the chunk
//! walk that finds the samples again, PCM bytes, and HTTP byte ranges.
use vstd::prelude::*;

use crate::chars::{chars_of, parse_u64, parse_u64_spec, starts_at, trim, trim_range};
use crate::outside::{base64_encode, base64_fits, base64_standard};
use crate::text::index_of;

verus! {

/// Four little-endian bytes of `x < 2^32`.
pub open spec fn le32(x: nat) -> Seq<u8> {
    seq![
        (x % 256) as u8,
        ((x / 256) % 256) as u8,
        ((x / 65536) % 256) as u8,
        ((x / 16777216) % 256) as u8,
    ]
}

/// Two little-endian bytes of `x < 2^16`.
pub open spec fn le16(x: nat) -> Seq<u8> {
    seq![(x % 256) as u8, ((x / 256) % 256) as u8]
}

/// The number that four little-endian bytes hold.
pub open spec fn read_le32(b: Seq<u8>) -> nat {
    (b[0] + 256 * b[1] + 65536 * b[2] + 16777216 * b[3]) as nat
}

pub open spec fn riff_tag() -> Seq<u8> {
    seq![0x52u8, 0x49, 0x46, 0x46]
}

pub open spec fn wave_tag() -> Seq<u8> {
    seq![0x57u8, 0x41, 0x56, 0x45]
}

pub open spec fn fmt_tag() -> Seq<u8> {
    seq![0x66u8, 0x6d, 0x74, 0x20]
}

pub open spec fn data_tag() -> Seq<u8> {
    seq![0x64u8, 0x61, 0x74, 0x61]
}

/// Bytes of sample data for `samples` 16-bit samples, saturated at 2^32-1.
pub open spec fn data_bytes(samples: nat) -> nat {
    if 2 * samples > u32::MAX {
        u32::MAX as nat
    } else {
        2 * samples
    }
}

/// The RIFF size field: 36 more than the data, saturated at 2^32-1.
pub open spec fn riff_size(samples: nat) -> nat {
    if 36 + data_bytes(samples) > u32::MAX {
        u32::MAX as nat
    } else {
        36 + data_bytes(samples)
    }
}

/// The header of a PCM WAV file of `samples` 16-bit mono samples at 16 kHz.
pub open spec fn wav_header_spec(samples: nat) -> Seq<u8> {
    riff_tag() + le32(riff_size(samples)) + wave_tag() + fmt_tag() + le32(16) + le16(1) + le16(1)
        + le32(16000) + le32(32000) + le16(2) + le16(16) + data_tag() + le32(data_bytes(samples))
}

fn put_le32(h: &mut [u8; 44], at: usize, x: u32)
    requires
        at + 4 <= 44,
    ensures
        final(h)@ == old(h)@.subrange(0, at as int) + le32(x as nat) + old(h)@.subrange(
            at + 4,
            44,
        ),
{
    h[at] = (x % 256) as u8;
    h[at + 1] = ((x / 256) % 256) as u8;
    h[at + 2] = ((x / 65536) % 256) as u8;
    h[at + 3] = ((x / 16777216) % 256) as u8;
    assert(h@ =~= old(h)@.subrange(0, at as int) + le32(x as nat) + old(h)@.subrange(at + 4, 44));
}

fn put_le16(h: &mut [u8; 44], at: usize, x: u16)
    requires
        at + 2 <= 44,
    ensures
        final(h)@ == old(h)@.subrange(0, at as int) + le16(x as nat) + old(h)@.subrange(
            at + 2,
            44,
        ),
{
    h[at] = (x % 256) as u8;
    h[at + 1] = ((x / 256) % 256) as u8;
    assert(h@ =~= old(h)@.subrange(0, at as int) + le16(x as nat) + old(h)@.subrange(at + 2, 44));
}

fn put_tag(h: &mut [u8; 44], at: usize, a: u8, b: u8, c: u8, d: u8)
    requires
        at + 4 <= 44,
    ensures
        final(h)@ == old(h)@.subrange(0, at as int) + seq![a, b, c, d] + old(h)@.subrange(
            at + 4,
            44,
        ),
{
    h[at] = a;
    h[at + 1] = b;
    h[at + 2] = c;
    h[at + 3] = d;
    assert(h@ =~= old(h)@.subrange(0, at as int) + seq![a, b, c, d] + old(h)@.subrange(at + 4, 44));
}

/// The 44-byte header of a PCM WAV file holding `samples` 16-bit mono
/// samples at 16 kHz; the size fields saturate at 2^32-1.
pub fn wav_header(samples: u32) -> (header: [u8; 44])
    ensures
        header@ == wav_header_spec(samples as nat),
{
    let data: u32 = if samples > u32::MAX / 2 {
        u32::MAX
    } else {
        samples * 2
    };
    let riff: u32 = if data > u32::MAX - 36 {
        u32::MAX
    } else {
        36 + data
    };
    let mut h = [0u8; 44];
    put_tag(&mut h, 0, 0x52, 0x49, 0x46, 0x46);
    put_le32(&mut h, 4, riff);
    put_tag(&mut h, 8, 0x57, 0x41, 0x56, 0x45);
    put_tag(&mut h, 12, 0x66, 0x6d, 0x74, 0x20);
    put_le32(&mut h, 16, 16);
    put_le16(&mut h, 20, 1);
    put_le16(&mut h, 22, 1);
    put_le32(&mut h, 24, 16000);
    put_le32(&mut h, 28, 32000);
    put_le16(&mut h, 32, 2);
    put_le16(&mut h, 34, 16);
    put_tag(&mut h, 36, 0x64, 0x61, 0x74, 0x61);
    put_le32(&mut h, 40, data);
    assert(data as nat == data_bytes(samples as nat));
    assert(riff as nat == riff_size(samples as nat));
    assert(h@ =~= wav_header_spec(samples as nat));
    h
}

/// Whether the first twelve bytes of a file open a RIFF/WAVE file.
pub open spec fn is_riff_wave(b: Seq<u8>) -> bool {
    b.subrange(0, 4) == riff_tag() && b.subrange(8, 12) == wave_tag()
}

pub fn riff_is_wave(riff: &[u8]) -> (r: bool)
    requires
        riff@.len() == 12,
    ensures
        r == is_riff_wave(riff@),
{
    let ok = riff[0] == 0x52 && riff[1] == 0x49 && riff[2] == 0x46 && riff[3] == 0x46 && riff[8]
        == 0x57 && riff[9] == 0x41 && riff[10] == 0x56 && riff[11] == 0x45;
    assert(ok ==> riff@.subrange(0, 4) =~= riff_tag() && riff@.subrange(8, 12) =~= wave_tag());
    assert(riff@.subrange(0, 4) == riff_tag() ==> riff@.subrange(0, 4)[1] == riff_tag()[1]);
    assert(riff@.subrange(8, 12) == wave_tag() ==> riff@.subrange(8, 12)[1] == wave_tag()[1]);
    ok
}

/// What to do with the chunk whose eight-byte head was just read.
#[derive(Clone, Copy, Debug, PartialEq, Eq)]
pub enum ChunkStep {
    /// A format chunk of `size` bytes: read it for the sample rate.
    Format { size: u64, pad: bool },
    /// The sample data: `size` bytes from position `pos`.
    Data { pos: u64, size: u64 },
    /// Any other chunk: skip its `size` bytes.
    Skip { size: u64, pad: bool },
}

/// The step that the chunk head `chunk`, read just before `pos`, calls for.
pub open spec fn chunk_step_spec(chunk: Seq<u8>, pos: u64) -> ChunkStep {
    let size = read_le32(chunk.subrange(4, 8)) as u64;
    let pad = size % 2 == 1;
    if chunk.subrange(0, 4) == fmt_tag() && size >= 16 {
        ChunkStep::Format { size, pad }
    } else if chunk.subrange(0, 4) == data_tag() {
        ChunkStep::Data { pos, size }
    } else {
        ChunkStep::Skip { size, pad }
    }
}

fn read_le32_exec(b: &[u8], at: usize) -> (r: u32)
    requires
        at + 4 <= b@.len(),
    ensures
        r as nat == read_le32(b@.subrange(at as int, at + 4)),
{
    let x = b[at] as u32 + 256 * (b[at + 1] as u32) + 65536 * (b[at + 2] as u32) + 16777216 * (
    b[at + 3] as u32);
    x
}

/// Reads an eight-byte chunk head (four-byte id, little-endian size) met
/// just before file position `pos`.
pub fn chunk_step(chunk: &[u8], pos: u64) -> (r: ChunkStep)
    requires
        chunk@.len() == 8,
    ensures
        r == chunk_step_spec(chunk@, pos),
{
    let size = read_le32_exec(chunk, 4) as u64;
    let pad = size % 2 == 1;
    let is_fmt = chunk[0] == 0x66 && chunk[1] == 0x6d && chunk[2] == 0x74 && chunk[3] == 0x20;
    let is_data = chunk[0] == 0x64 && chunk[1] == 0x61 && chunk[2] == 0x74 && chunk[3] == 0x61;
    let ghost id = chunk@.subrange(0, 4);
    assert(is_fmt <==> id =~= fmt_tag()) by {
        if id == fmt_tag() {
            assert(id[0] == fmt_tag()[0] && id[1] == fmt_tag()[1] && id[2] == fmt_tag()[2] && id[3]
                == fmt_tag()[3]);
        }
    }
    assert(is_data <==> id =~= data_tag()) by {
        if id == data_tag() {
            assert(id[0] == data_tag()[0] && id[1] == data_tag()[1] && id[2] == data_tag()[2]
                && id[3] == data_tag()[3]);
        }
    }
    if is_fmt && size >= 16 {
        ChunkStep::Format { size, pad }
    } else if is_data {
        ChunkStep::Data { pos, size }
    } else {
        ChunkStep::Skip { size, pad }
    }
}

/// The sample rate stored in a format chunk's body.
pub open spec fn fmt_rate_spec(fmt: Seq<u8>) -> u32 {
    read_le32(fmt.subrange(4, 8)) as u32
}

pub fn fmt_rate(fmt: &[u8]) -> (r: u32)
    requires
        fmt@.len() >= 8,
    ensures
        r == fmt_rate_spec(fmt@),
{
    read_le32_exec(fmt, 4)
}

/// A file that starts with `wav_header(samples)` reads back as a RIFF/WAVE
/// file whose format chunk says 16 kHz and whose data chunk starts at byte
/// 44 and holds the header's data size.
pub proof fn header_reads_back(samples: u32)
    ensures
        ({
            let h = wav_header_spec(samples as nat);
            &&& is_riff_wave(h.subrange(0, 12))
            &&& chunk_step_spec(h.subrange(12, 20), 20) == ChunkStep::Format {
                size: 16,
                pad: false,
            }
            &&& fmt_rate_spec(h.subrange(20, 36)) == 16000
            &&& chunk_step_spec(h.subrange(36, 44), 44) == ChunkStep::Data {
                pos: 44,
                size: data_bytes(samples as nat) as u64,
            }
        }),
{
    let h = wav_header_spec(samples as nat);
    assert(h.subrange(0, 12).subrange(0, 4) =~= riff_tag());
    assert(h.subrange(0, 12).subrange(8, 12) =~= wave_tag());
    assert(h.subrange(12, 20).subrange(0, 4) =~= fmt_tag());
    assert(h.subrange(12, 20).subrange(4, 8) =~= le32(16));
    assert(h.subrange(20, 36).subrange(4, 8) =~= le32(16000));
    assert(h.subrange(36, 44).subrange(0, 4) =~= data_tag());
    assert(h.subrange(36, 44).subrange(4, 8) =~= le32(data_bytes(samples as nat)));
    let d = data_bytes(samples as nat);
    assert(read_le32(le32(d)) == d) by {
        let b = le32(d);
        assert(b[0] == d % 256);
        assert(b[1] == (d / 256) % 256);
        assert(b[2] == (d / 65536) % 256);
        assert(b[3] == (d / 16777216) % 256);
        assert(d < 0x1_0000_0000);
        assert((d % 256) + 256 * ((d / 256) % 256) + 65536 * ((d / 65536) % 256) + 16777216 * ((d
            / 16777216) % 256) == d) by (nonlinear_arith)
            requires
                d < 0x1_0000_0000,
        ;
    }
    assert(read_le32(le32(16)) == 16);
    assert(read_le32(le32(16000)) == 16000);
    assert(!(h.subrange(36, 44).subrange(0, 4) == fmt_tag())) by {
        assert(h.subrange(36, 44).subrange(0, 4)[0] != fmt_tag()[0]);
    }
}

/// The two little-endian bytes of a 16-bit sample.
pub open spec fn sample_le(x: i16) -> Seq<u8> {
    le16((x as u16) as nat)
}

/// Samples written one after the other as little-endian bytes.
pub open spec fn pcm_bytes(s: Seq<i16>) -> Seq<u8>
    decreases s.len(),
{
    if s.len() == 0 {
        Seq::empty()
    } else {
        pcm_bytes(s.drop_last()) + sample_le(s.last())
    }
}

/// The sample that bytes `2i` and `2i + 1` hold.
pub open spec fn sample_at(b: Seq<u8>, i: int) -> i16 {
    ((b[2 * i] + 256 * b[2 * i + 1]) as u16) as i16
}

/// The samples in a run of little-endian bytes; an odd last byte is ignored.
pub open spec fn pcm_samples(b: Seq<u8>) -> Seq<i16> {
    Seq::new(b.len() / 2, |i: int| sample_at(b, i))
}

/// The little-endian bytes of 16-bit PCM samples.
pub fn pcm_le_bytes(pcm: &[i16]) -> (r: Vec<u8>)
    ensures
        r@ == pcm_bytes(pcm@),
{
    let mut out: Vec<u8> = Vec::new();
    let mut i: usize = 0;
    while i < pcm.len()
        invariant
            i <= pcm@.len(),
            out@ == pcm_bytes(pcm@.take(i as int)),
        decreases pcm.len() - i,
    {
        let u = pcm[i] as u16;
        out.push((u % 256) as u8);
        out.push((u / 256) as u8);
        assert(pcm@.take(i + 1).drop_last() =~= pcm@.take(i as int));
        assert(out@ =~= pcm_bytes(pcm@.take(i + 1)));
        i = i + 1;
    }
    assert(pcm@.take(pcm.len() as int) =~= pcm@);
    out
}

/// 16-bit PCM samples read from little-endian bytes; a trailing odd byte is
/// ignored.
pub fn pcm_from_le_bytes(bytes: &[u8]) -> (r: Vec<i16>)
    ensures
        r@ == pcm_samples(bytes@),
{
    let mut out: Vec<i16> = Vec::new();
    let len = bytes.len();
    let n = len / 2;
    let mut i: usize = 0;
    while i < n
        invariant
            len == bytes@.len(),
            n == len / 2,
            i <= n,
            out@.len() == i,
            forall|k: int| 0 <= k < i ==> out@[k] == sample_at(bytes@, k),
        decreases n - i,
    {
        assert(2 * i + 1 < bytes@.len());
        let lo = bytes[2 * i] as u32;
        let hi = bytes[2 * i + 1] as u32;
        let x = ((lo + 256 * hi) as u16) as i16;
        out.push(x);
        i = i + 1;
    }
    assert(out@ =~= pcm_samples(bytes@));
    out
}

proof fn lemma_pcm_bytes_shape(s: Seq<i16>)
    ensures
        pcm_bytes(s).len() == 2 * s.len(),
        forall|i: int|
            0 <= i < s.len() ==> pcm_bytes(s)[2 * i] == sample_le(s[i])[0] && pcm_bytes(s)[2 * i
                + 1] == sample_le(s[i])[1],
    decreases s.len(),
{
    if s.len() > 0 {
        lemma_pcm_bytes_shape(s.drop_last());
        let p = pcm_bytes(s.drop_last());
        assert forall|i: int| 0 <= i < s.len() implies pcm_bytes(s)[2 * i] == sample_le(s[i])[0]
            && pcm_bytes(s)[2 * i + 1] == sample_le(s[i])[1] by {
            if i < s.len() - 1 {
                assert(s.drop_last()[i] == s[i]);
            }
        }
    }
}

proof fn lemma_sample_round_trip(x: i16)
    ensures
        (((x as u16) % 256 + 256 * ((x as u16) / 256 % 256)) as u16) as i16 == x,
{
    let u = x as u16;
    assert((u % 256 + 256 * (u / 256 % 256)) as u16 == u) by (nonlinear_arith);
    assert(((x as u16) as i16) == x) by (bit_vector);
}

/// Reading back the bytes written for some samples gives those samples.
pub proof fn written_samples_read_back(s: Seq<i16>)
    ensures
        pcm_samples(pcm_bytes(s)) == s,
{
    lemma_pcm_bytes_shape(s);
    let b = pcm_bytes(s);
    assert forall|i: int| 0 <= i < s.len() implies #[trigger] pcm_samples(b)[i] == s[i] by {
        lemma_sample_round_trip(s[i]);
    }
    assert(pcm_samples(b) =~= s);
}

/// The text the speech engine receives for live samples: their bytes in
/// standard base64.
pub open spec fn live_pcm_text(pcm: Seq<i16>) -> Seq<char> {
    base64_standard(pcm_bytes(pcm))
}

/// Whether `count` samples fit in one live message.
pub open spec fn live_pcm_fits(count: nat) -> bool {
    base64_fits(2 * count)
}

/// Samples as the base64 text of their little-endian bytes.
pub fn live_pcm_payload(pcm: &[i16]) -> (r: String)
    requires
        live_pcm_fits(pcm@.len()),
    ensures
        r@ == live_pcm_text(pcm@),
{
    let bytes = pcm_le_bytes(pcm);
    proof {
        lemma_pcm_bytes_shape(pcm@);
    }
    base64_encode(bytes.as_slice())
}

/// One batch of live audio for the speech engine: which track it is from
/// and its base64 samples.
pub struct LivePcm {
    pub source: String,
    pub pcm: String,
}

/// Hands over the waiting desktop samples, then the waiting microphone
/// samples, each as one batch, and empties both buffers. An empty buffer
/// gives no batch.
pub fn flush_live_pcm(desktop: &mut Vec<i16>, mic: &mut Vec<i16>) -> (r: Vec<LivePcm>)
    requires
        live_pcm_fits(old(desktop)@.len()),
        live_pcm_fits(old(mic)@.len()),
    ensures
        final(desktop)@.len() == 0,
        final(mic)@.len() == 0,
        r@.len() == (if old(desktop)@.len() > 0 { 1int } else { 0 }) + (if old(mic)@.len() > 0 {
            1int
        } else {
            0
        }),
        old(desktop)@.len() > 0 ==> r@[0].source@ == "desktop"@ && r@[0].pcm@ == live_pcm_text(
            old(desktop)@,
        ),
        old(mic)@.len() > 0 ==> r@.last().source@ == "mic"@ && r@.last().pcm@ == live_pcm_text(
            old(mic)@,
        ),
{
    let mut out: Vec<LivePcm> = Vec::new();
    if desktop.len() > 0 {
        let pcm = live_pcm_payload(desktop.as_slice());
        out.push(LivePcm { source: String::from_str("desktop"), pcm });
        desktop.clear();
    }
    if mic.len() > 0 {
        let pcm = live_pcm_payload(mic.as_slice());
        out.push(LivePcm { source: String::from_str("mic"), pcm });
        mic.clear();
    }
    out
}

/// The byte range that an HTTP `Range` header asks of a body of `len`
/// bytes, as `parse_range` reads it.
pub open spec fn parse_range_spec(header: Seq<char>, len: u64) -> Option<(u64, u64)> {
    let t = trim(header);
    if len == 0 {
        None
    } else if !(t.len() >= 6 && t.take(6) == "bytes="@) {
        None
    } else {
        let rest = t.skip(6);
        match index_of(rest, '-', 0) {
            None => None,
            Some(k) => range_of(rest.take(k), rest.skip(k + 1), len),
        }
    }
}

/// The range that the two sides of `bytes=start-end` give.
pub open spec fn range_of(start: Seq<char>, end: Seq<char>, len: u64) -> Option<(u64, u64)> {
    if start.len() == 0 {
        match parse_u64_spec(end) {
            None => None,
            Some(tail) => {
                let back = if tail < 1 {
                    1
                } else {
                    tail
                };
                let first = if back > len {
                    0
                } else {
                    (len - back) as u64
                };
                Some((first, (len - 1) as u64))
            },
        }
    } else {
        match parse_u64_spec(start) {
            None => None,
            Some(s) => {
                let last = if end.len() == 0 {
                    Some((len - 1) as u64)
                } else {
                    match parse_u64_spec(end) {
                        None => None,
                        Some(e) => Some(
                            if e < len - 1 {
                                e
                            } else {
                                (len - 1) as u64
                            },
                        ),
                    }
                };
                match last {
                    None => None,
                    Some(e) => if s >= len || s > e {
                        None
                    } else {
                        Some((s, e))
                    },
                }
            },
        }
    }
}

fn range_of_exec(v: &Vec<char>, a: usize, k: usize, hi: usize, len: u64) -> (r: Option<(u64, u64)>)
    requires
        a <= k < hi <= v.len(),
        len > 0,
    ensures
        r == range_of(v@.subrange(a as int, k as int), v@.subrange(k + 1, hi as int), len),
{
    if k == a {
        match parse_u64(v, k + 1, hi) {
            None => None,
            Some(tail) => {
                let back = if tail < 1 {
                    1
                } else {
                    tail
                };
                let first = if back > len {
                    0
                } else {
                    len - back
                };
                Some((first, len - 1))
            },
        }
    } else {
        match parse_u64(v, a, k) {
            None => None,
            Some(s) => {
                let last = if k + 1 == hi {
                    len - 1
                } else {
                    match parse_u64(v, k + 1, hi) {
                        None => {
                            return None;
                        },
                        Some(e) => if e < len - 1 {
                            e
                        } else {
                            len - 1
                        },
                    }
                };
                if s >= len || s > last {
                    None
                } else {
                    Some((s, last))
                }
            },
        }
    }
}

/// Reads an HTTP `Range` header such as `bytes=10-20`, `bytes=0-` or
/// `bytes=-10` against a body of `len` bytes. The range it gives always lies
/// inside the body.
pub fn parse_range(header: &str, len: u64) -> (r: Option<(u64, u64)>)
    ensures
        r == parse_range_spec(header@, len),
        r matches Some((s, e)) ==> s <= e < len,
{
    if len == 0 {
        return None;
    }
    let v = chars_of(header);
    let (lo, hi) = trim_range(&v, 0, v.len());
    assert(v@.subrange(0, v@.len() as int) =~= header@);
    let ghost t = v@.subrange(lo as int, hi as int);
    let pat = chars_of("bytes=");
    proof {
        reveal_strlit("bytes=");
    }
    if !starts_at(&v, lo, &pat) || lo + 6 > hi {
        proof {
            if t.len() >= 6 && t.take(6) == "bytes="@ {
                assert(v@.subrange(lo as int, lo + 6) =~= t.take(6));
            }
        }
        return None;
    }
    assert(t.take(6) =~= v@.subrange(lo as int, lo + 6));
    let a = lo + 6;
    let ghost rest = t.skip(6);
    assert(rest =~= v@.subrange(a as int, hi as int));
    let mut k = a;
    while k < hi && v[k] != '-'
        invariant
            a <= k <= hi <= v.len(),
            rest == v@.subrange(a as int, hi as int),
            index_of(rest, '-', 0) == index_of(rest, '-', k - a),
        decreases hi - k,
    {
        k = k + 1;
    }
    if k == hi {
        return None;
    }
    assert(index_of(rest, '-', 0) == Some(k - a));
    assert(rest.take(k - a) =~= v@.subrange(a as int, k as int));
    assert(rest.skip(k - a + 1) =~= v@.subrange(k + 1, hi as int));
    range_of_exec(&v, a, k, hi, len)
}

} // verus!
