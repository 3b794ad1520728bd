//! Waveform peaks. A peak is the loudest sample of a stretch of audio, on a
//! scale where 32768 is full scale; the drawing code divides by 32768.
use vstd::prelude::*;

use crate::wav::pcm_samples;

verus! {

/// Loudness of one sample: its distance from zero.
pub open spec fn amp(x: i16) -> u16 {
    if x < 0 {
        (-(x as int)) as u16
    } else {
        x as u16
    }
}

/// The loudness of each sample.
pub open spec fn amps(s: Seq<i16>) -> Seq<u16> {
    s.map_values(|x: i16| amp(x))
}

/// Loudness of one sample: its distance from zero, 0 to 32768.
pub fn amplitude(x: i16) -> (r: u16)
    ensures
        r == amp(x),
        r <= 32768,
{
    if x < 0 {
        (0i32 - x as i32) as u16
    } else {
        x as u16
    }
}

/// Whether `peak` is the loudest of the values of `s` that fall in bucket
/// `b`, or 0 where none is louder than silence.
pub open spec fn loudest_in(peak: u16, s: Seq<u16>, bucket: spec_fn(int) -> int, b: int) -> bool {
    &&& forall|i: int| 0 <= i < s.len() && bucket(i) == b ==> s[i] <= peak
    &&& (peak == 0 || exists|i: int| 0 <= i < s.len() && bucket(i) == b && s[i] == peak)
}

/// Whether each entry of `out` is the loudest value of `s` in its bucket.
pub open spec fn bucket_maxima(out: Seq<u16>, s: Seq<u16>, bucket: spec_fn(int) -> int) -> bool {
    forall|b: int| 0 <= b < out.len() ==> #[trigger] loudest_in(out[b], s, bucket, b)
}

/// Taking in one more value keeps each entry the loudest of its bucket.
proof fn lemma_bucket_step(out: Seq<u16>, s: Seq<u16>, a: u16, bucket: spec_fn(int) -> int)
    requires
        bucket_maxima(out, s, bucket),
        0 <= bucket(s.len() as int) < out.len(),
    ensures
        bucket_maxima(
            if a > out[bucket(s.len() as int)] {
                out.update(bucket(s.len() as int), a)
            } else {
                out
            },
            s.push(a),
            bucket,
        ),
{
    let b0 = bucket(s.len() as int);
    let t = s.push(a);
    let o = if a > out[b0] {
        out.update(b0, a)
    } else {
        out
    };
    assert forall|b: int| 0 <= b < o.len() implies #[trigger] loudest_in(o[b], t, bucket, b) by {
        assert(loudest_in(out[b], s, bucket, b));
        assert forall|i: int| 0 <= i < t.len() && bucket(i) == b implies t[i] <= o[b] by {
            if i < s.len() {
                assert(t[i] == s[i]);
            }
        }
        if o[b] != 0 {
            if b == b0 && a > out[b0] {
                assert(t[s.len() as int] == a);
            } else {
                let i = choose|i: int| 0 <= i < s.len() && bucket(i) == b && s[i] == out[b];
                assert(t[i] == s[i]);
            }
        }
    }
}

/// Bucket `i * points / len` of value `i` out of `len`.
pub open spec fn even_bucket(points: int, len: int) -> spec_fn(int) -> int {
    |i: int| i * points / len
}

/// What `downsample` gives back: nothing for no values or no points, the
/// values themselves where they are no more than the points, and otherwise
/// `points` entries, each the loudest value of its bucket.
pub open spec fn downsampled(s: Seq<u16>, points: int, out: Seq<u16>) -> bool {
    if s.len() == 0 || points == 0 {
        out.len() == 0
    } else if s.len() <= points {
        out == s
    } else {
        out.len() == points && bucket_maxima(out, s, even_bucket(points, s.len() as int))
    }
}

/// Every value of `s` is at most `bound`.
pub open spec fn all_at_most(s: Seq<u16>, bound: int) -> bool {
    forall|i: int| 0 <= i < s.len() ==> #[trigger] s[i] <= bound
}

proof fn lemma_maxima_bounded(out: Seq<u16>, s: Seq<u16>, bucket: spec_fn(int) -> int, bound: int)
    requires
        bucket_maxima(out, s, bucket),
        all_at_most(s, bound),
        bound >= 0,
    ensures
        all_at_most(out, bound),
{
    assert forall|b: int| 0 <= b < out.len() implies #[trigger] out[b] <= bound by {
        assert(loudest_in(out[b], s, bucket, b));
    }
}

proof fn lemma_downsampled_bounded(s: Seq<u16>, points: int, out: Seq<u16>, bound: int)
    requires
        downsampled(s, points, out),
        all_at_most(s, bound),
        bound >= 0,
    ensures
        all_at_most(out, bound),
{
    if s.len() > 0 && points != 0 && s.len() > points {
        lemma_maxima_bounded(out, s, even_bucket(points, s.len() as int), bound);
    }
}

proof fn lemma_amps_bounded(s: Seq<i16>)
    ensures
        all_at_most(amps(s), 32768),
{
    assert forall|i: int| 0 <= i < amps(s).len() implies #[trigger] amps(s)[i] <= 32768 by {
        let x = s[i];
        assert(amp(x) <= 32768) by {
            if x < 0 {
                assert(-(x as int) <= 32768);
            }
        }
    }
}

proof fn lemma_even_bucket_bound(i: int, points: int, len: int)
    requires
        0 <= i < len,
        0 < points,
    ensures
        0 <= i * points / len < points,
{
    assert(0 <= i * points) by (nonlinear_arith)
        requires
            0 <= i,
            0 < points,
    ;
    assert(i * points < len * points) by (nonlinear_arith)
        requires
            0 <= i < len,
            0 < points,
    ;
    assert(i * points / len < points) by (nonlinear_arith)
        requires
            0 <= i * points < len * points,
            0 < len,
    ;
}

/// Thins `peaks` to at most `points` entries, keeping the loudest value of
/// each stretch.
pub fn downsample(peaks: &[u16], points: usize) -> (r: Vec<u16>)
    ensures
        downsampled(peaks@, points as int, r@),
{
    if peaks.len() == 0 || points == 0 {
        return Vec::new();
    }
    if peaks.len() <= points {
        let mut copy: Vec<u16> = Vec::new();
        let mut k: usize = 0;
        while k < peaks.len()
            invariant
                k <= peaks@.len(),
                copy@ == peaks@.take(k as int),
            decreases peaks.len() - k,
        {
            copy.push(peaks[k]);
            assert(peaks@.take(k + 1) =~= peaks@.take(k as int).push(peaks@[k as int]));
            k = k + 1;
        }
        assert(peaks@.take(peaks@.len() as int) =~= peaks@);
        return copy;
    }
    let len = peaks.len();
    let ghost bucket = even_bucket(points as int, len as int);
    let mut out: Vec<u16> = Vec::new();
    let mut k: usize = 0;
    while k < points
        invariant
            k <= points,
            out@.len() == k,
            forall|j: int| 0 <= j < k ==> out@[j] == 0,
        decreases points - k,
    {
        out.push(0);
        k = k + 1;
    }
    assert(bucket_maxima(out@, peaks@.take(0), bucket)) by {
        assert forall|b: int| 0 <= b < out@.len() implies #[trigger] loudest_in(
            out@[b],
            peaks@.take(0),
            bucket,
            b,
        ) by {}
    }
    let mut index: usize = 0;
    while index < len
        invariant
            len == peaks@.len(),
            points < len,
            0 < points,
            index <= len,
            out@.len() == points,
            bucket == even_bucket(points as int, len as int),
            bucket_maxima(out@, peaks@.take(index as int), bucket),
        decreases len - index,
    {
        assert((index as int) * (points as int) <= 0xffff_ffff_ffff_ffff * 0xffff_ffff_ffff_ffffint)
            by (nonlinear_arith)
            requires
                0 <= index <= 0xffff_ffff_ffff_ffffint,
                0 <= points <= 0xffff_ffff_ffff_ffffint,
        ;
        let wide: u128 = (index as u128) * (points as u128) / (len as u128);
        proof {
            lemma_even_bucket_bound(index as int, points as int, len as int);
            assert(bucket(index as int) == wide);
            assert(peaks@.take(index as int).len() == index);
            lemma_bucket_step(out@, peaks@.take(index as int), peaks@[index as int], bucket);
            assert(peaks@.take(index + 1) =~= peaks@.take(index as int).push(peaks@[index as int]));
        }
        let b = wide as usize;
        let value = peaks[index];
        if value > out[b] {
            out.set(b, value);
        }
        index = index + 1;
    }
    assert(peaks@.take(len as int) =~= peaks@);
    out
}

/// Most points a waveform is drawn with.
pub const MAX_POINTS: usize = 4000;

/// `points` held between 1 and `MAX_POINTS`.
pub open spec fn clamp_points(points: int) -> int {
    if points < 1 {
        1
    } else if points > MAX_POINTS {
        MAX_POINTS as int
    } else {
        points
    }
}

/// Bucket of sample `i` when `frames` samples are drawn with `points`
/// points: `i * points / frames`, and never past the last point.
pub open spec fn frame_bucket(points: int, frames: int) -> spec_fn(int) -> int {
    |i: int|
        if i * points / frames < points - 1 {
            i * points / frames
        } else {
            points - 1
        }
}

/// The waveform of the samples of a data chunk, built as its bytes are read.
pub struct PeakScan {
    points: usize,
    frames: u64,
    read: u64,
    peaks: Vec<u16>,
    seen: Ghost<Seq<i16>>,
}

impl PeakScan {
    /// Points the waveform is drawn with.
    pub closed spec fn point_count(&self) -> int {
        self.points as int
    }

    /// Samples in the data chunk.
    pub closed spec fn frame_count(&self) -> int {
        self.frames as int
    }

    /// The samples read so far.
    pub closed spec fn seen(&self) -> Seq<i16> {
        self.seen@
    }

    /// What the scan has as its waveform: one silent point for an empty
    /// chunk, else for each point the loudest sample read in its bucket.
    pub open spec fn shows(&self, out: Seq<u16>) -> bool {
        if self.frame_count() == 0 {
            out == seq![0u16]
        } else {
            out.len() == self.point_count() && bucket_maxima(
                out,
                amps(self.seen()),
                frame_bucket(self.point_count(), self.frame_count()),
            )
        }
    }

    pub closed spec fn wf(&self) -> bool {
        &&& 1 <= self.points <= MAX_POINTS
        &&& self.frames < 0x8000_0000
        &&& self.seen@.len() <= self.frames
        &&& self.read == self.seen@.len()
        &&& self.shows(self.peaks@)
    }

    /// A scan of a data chunk of `data_len` bytes drawn with `points`
    /// points, held between 1 and `MAX_POINTS`.
    pub fn new(points: usize, data_len: u32) -> (r: PeakScan)
        ensures
            r.wf(),
            r.point_count() == clamp_points(points as int),
            r.frame_count() == data_len / 2,
            r.seen() == Seq::<i16>::empty(),
    {
        let points = if points < 1 {
            1
        } else if points > MAX_POINTS {
            MAX_POINTS
        } else {
            points
        };
        let frames = (data_len / 2) as u64;
        let mut peaks: Vec<u16> = Vec::new();
        if frames == 0 {
            peaks.push(0);
            let r = PeakScan { points, frames, read: 0, peaks, seen: Ghost(Seq::empty()) };
            assert(r.peaks@ =~= seq![0u16]);
            return r;
        }
        let mut k: usize = 0;
        while k < points
            invariant
                k <= points,
                peaks@.len() == k,
                forall|j: int| 0 <= j < k ==> peaks@[j] == 0,
            decreases points - k,
        {
            peaks.push(0);
            k = k + 1;
        }
        let r = PeakScan { points, frames, read: 0, peaks, seen: Ghost(Seq::empty()) };
        assert(amps(Seq::<i16>::empty()) =~= Seq::<u16>::empty());
        assert forall|b: int| 0 <= b < r.peaks@.len() implies #[trigger] loudest_in(
            r.peaks@[b],
            amps(r.seen@),
            frame_bucket(points as int, frames as int),
            b,
        ) by {}
        r
    }

    /// Samples in the data chunk.
    pub fn frames(&self) -> (r: u64)
        requires
            self.wf(),
        ensures
            r == self.frame_count(),
    {
        self.frames
    }

    /// Reads the next bytes of the data chunk; an odd last byte is ignored.
    pub fn feed(&mut self, bytes: &[u8])
        requires
            old(self).wf(),
            old(self).seen().len() + bytes@.len() / 2 <= old(self).frame_count(),
        ensures
            final(self).wf(),
            final(self).point_count() == old(self).point_count(),
            final(self).frame_count() == old(self).frame_count(),
            final(self).seen() == old(self).seen() + pcm_samples(bytes@),
    {
        let n = bytes.len() / 2;
        if n == 0 {
            assert(pcm_samples(bytes@) =~= Seq::<i16>::empty());
            assert(self.seen@ + pcm_samples(bytes@) =~= self.seen@);
            return;
        }
        let points = self.points;
        let frames = self.frames;
        let ghost start = self.seen@;
        let ghost bucket = frame_bucket(points as int, frames as int);
        let mut index: u64 = self.read;
        let mut i: usize = 0;
        while i < n
            invariant
                points == self.points,
                frames == self.frames,
                1 <= points <= MAX_POINTS,
                0 < frames < 0x8000_0000,
                n == bytes@.len() / 2,
                start.len() + n <= frames,
                i <= n,
                index == start.len() + i,
                self.read == start.len(),
                self.seen@ == start + pcm_samples(bytes@).take(i as int),
                self.peaks@.len() == points,
                bucket == frame_bucket(points as int, frames as int),
                bucket_maxima(self.peaks@, amps(self.seen@), bucket),
            decreases n - i,
        {
            assert(2 * i + 1 < bytes@.len());
            let lo = bytes[2 * i] as u32;
            let hi = bytes[2 * i + 1] as u32;
            let sample = ((lo + 256 * hi) as u16) as i16;
            assert(sample == pcm_samples(bytes@)[i as int]);
            let a = amplitude(sample);
            assert((index as int) * (points as int) < 0x8000_0000 * 4001) by (nonlinear_arith)
                requires
                    0 <= index < 0x8000_0000,
                    1 <= points <= 4000,
            ;
            let raw = index * (points as u64) / frames;
            let b: usize = if raw < (points - 1) as u64 {
                raw as usize
            } else {
                points - 1
            };
            proof {
                assert(bucket(index as int) == b);
                assert(amps(self.seen@).len() == index);
                lemma_bucket_step(self.peaks@, amps(self.seen@), a, bucket);
                assert(amps(self.seen@.push(sample)) =~= amps(self.seen@).push(a));
                assert(pcm_samples(bytes@).take(i + 1) =~= pcm_samples(bytes@).take(i as int).push(
                    sample,
                ));
            }
            if a > self.peaks[b] {
                self.peaks.set(b, a);
            }
            self.seen = Ghost(self.seen@.push(sample));
            index = index + 1;
            i = i + 1;
        }
        self.read = index;
        assert(pcm_samples(bytes@).take(n as int) =~= pcm_samples(bytes@));
    }

    /// The waveform so far.
    pub fn peaks(&self) -> (r: Vec<u16>)
        requires
            self.wf(),
        ensures
            self.shows(r@),
            all_at_most(r@, 32768),
    {
        let r = self.peaks.clone();
        assert(r@ =~= self.peaks@);
        proof {
            if self.frames > 0 {
                lemma_amps_bounded(self.seen@);
                lemma_maxima_bounded(
                    r@,
                    amps(self.seen@),
                    frame_bucket(self.points as int, self.frames as int),
                    32768,
                );
            }
        }
        r
    }
}

/// Samples per point of the live meter: a tenth of a second at 16 kHz.
pub const METER_BLOCK: usize = 1600;

/// Most points the live meter is drawn with.
pub const METER_POINTS: usize = 2000;

/// The loudest of `s`, or 0 for none.
pub open spec fn loudest(s: Seq<u16>) -> u16
    decreases s.len(),
{
    if s.len() == 0 {
        0
    } else if s.last() > loudest(s.drop_last()) {
        s.last()
    } else {
        loudest(s.drop_last())
    }
}

proof fn lemma_loudest_bounded(s: Seq<u16>, bound: int)
    requires
        all_at_most(s, bound),
        bound >= 0,
    ensures
        loudest(s) <= bound,
    decreases s.len(),
{
    if s.len() > 0 {
        assert(all_at_most(s.drop_last(), bound)) by {
            assert forall|i: int| 0 <= i < s.drop_last().len() implies #[trigger] s.drop_last()[i]
                <= bound by {
                assert(s.drop_last()[i] == s[i]);
            }
        }
        lemma_loudest_bounded(s.drop_last(), bound);
        assert(s.last() == s[s.len() - 1]);
    }
}

/// The loudest of the samples of block `k` (the last block may be short).
pub open spec fn block_peak(notes: Seq<u16>, k: int) -> u16 {
    let end = if (k + 1) * 1600 < notes.len() {
        (k + 1) * 1600
    } else {
        notes.len() as int
    };
    loudest(notes.subrange(k * 1600, end))
}

/// The live meter's points: the loudest sample of each block of
/// `METER_BLOCK` samples, a started block included.
pub open spec fn meter_points(notes: Seq<u16>) -> Seq<u16> {
    Seq::new(((notes.len() + 1599) / 1600) as nat, |k: int| block_peak(notes, k))
}

/// The level meter of a track being recorded.
pub struct LiveMeter {
    peaks: Vec<u16>,
    bucket: u16,
    fill: usize,
    notes: Ghost<Seq<u16>>,
}

impl LiveMeter {
    /// The loudness of every sample recorded so far.
    pub closed spec fn notes(&self) -> Seq<u16> {
        self.notes@
    }

    pub closed spec fn wf(&self) -> bool {
        &&& self.fill < 1600
        &&& self.notes@.len() == self.peaks@.len() * 1600 + self.fill
        &&& all_at_most(self.notes@, 32768)
        &&& forall|k: int|
            0 <= k < self.peaks@.len() ==> #[trigger] self.peaks@[k] == loudest(
                self.notes@.subrange(k * 1600, k * 1600 + 1600),
            )
        &&& self.bucket == loudest(
            self.notes@.subrange(self.peaks@.len() * 1600int, self.notes@.len() as int),
        )
    }

    /// A meter that has heard nothing.
    pub fn new() -> (r: LiveMeter)
        ensures
            r.wf(),
            r.notes() == Seq::<u16>::empty(),
    {
        let r = LiveMeter { peaks: Vec::new(), bucket: 0, fill: 0, notes: Ghost(Seq::empty()) };
        assert(r.notes@.subrange(0, 0) =~= Seq::<u16>::empty());
        r
    }

    fn note(&mut self, a: u16)
        requires
            old(self).wf(),
            a <= 32768,
        ensures
            final(self).wf(),
            final(self).notes() == old(self).notes().push(a),
    {
        let ghost before = self.notes@;
        let ghost np: int = self.peaks@.len() as int;
        proof {
            let open = before.subrange(np * 1600, before.len() as int);
            assert(before.push(a).subrange(np * 1600, before.len() as int + 1) =~= open.push(a));
            assert(open.push(a).drop_last() =~= open);
            assert forall|k: int| 0 <= k < np implies #[trigger] before.push(a).subrange(
                k * 1600,
                k * 1600 + 1600,
            ) =~= before.subrange(k * 1600, k * 1600 + 1600) by {}
        }
        if a > self.bucket {
            self.bucket = a;
        }
        self.fill = self.fill + 1;
        self.notes = Ghost(before.push(a));
        if self.fill >= METER_BLOCK {
            self.peaks.push(self.bucket);
            self.bucket = 0;
            self.fill = 0;
            proof {
                let after = before.push(a);
                assert(after.subrange((np + 1) * 1600, after.len() as int) =~= Seq::<u16>::empty());
                assert forall|k: int| 0 <= k < self.peaks@.len() implies #[trigger] self.peaks@[k]
                    == loudest(after.subrange(k * 1600, k * 1600 + 1600)) by {
                    if k < np {
                        assert(self.peaks@[k] == old(self).peaks@[k]);
                    }
                }
            }
        } else {
            proof {
                let after = before.push(a);
                assert forall|k: int| 0 <= k < self.peaks@.len() implies #[trigger] self.peaks@[k]
                    == loudest(after.subrange(k * 1600, k * 1600 + 1600)) by {
                    assert(self.peaks@[k] == old(self).peaks@[k]);
                }
            }
        }
    }

    /// Hears samples that were written to the track.
    pub fn note_pcm(&mut self, pcm: &[i16])
        requires
            old(self).wf(),
        ensures
            final(self).wf(),
            final(self).notes() == old(self).notes() + amps(pcm@),
    {
        let mut i: usize = 0;
        while i < pcm.len()
            invariant
                i <= pcm@.len(),
                self.wf(),
                self.notes() == old(self).notes() + amps(pcm@).take(i as int),
            decreases pcm.len() - i,
        {
            let a = amplitude(pcm[i]);
            self.note(a);
            assert(amps(pcm@).take(i + 1) =~= amps(pcm@).take(i as int).push(a));
            i = i + 1;
        }
        assert(amps(pcm@).take(pcm@.len() as int) =~= amps(pcm@));
    }

    /// Hears `count` samples of silence.
    pub fn note_silence(&mut self, count: u32)
        requires
            old(self).wf(),
        ensures
            final(self).wf(),
            final(self).notes() == old(self).notes() + Seq::new(count as nat, |i: int| 0u16),
    {
        let mut i: u32 = 0;
        while i < count
            invariant
                i <= count,
                self.wf(),
                self.notes() == old(self).notes() + Seq::new(i as nat, |j: int| 0u16),
            decreases count - i,
        {
            self.note(0);
            assert(Seq::new((i + 1) as nat, |j: int| 0u16) =~= Seq::new(i as nat, |j: int| 0u16).push(
                0u16,
            ));
            i = i + 1;
        }
    }

    /// The meter as drawn: its points thinned to at most `METER_POINTS`.
    pub fn snapshot(&self) -> (r: Vec<u16>)
        requires
            self.wf(),
        ensures
            downsampled(meter_points(self.notes()), METER_POINTS as int, r@),
            all_at_most(r@, 32768),
    {
        let mut points = self.peaks.clone();
        assert(points@ =~= self.peaks@);
        if self.fill > 0 {
            points.push(self.bucket);
        }
        proof {
            let notes = self.notes@;
            let np: int = self.peaks@.len() as int;
            let len: int = notes.len() as int;
            assert((len + 1599) / 1600 == np + (if self.fill > 0 { 1int } else { 0 }));
            assert forall|k: int| 0 <= k < points@.len() implies points@[k] == #[trigger] block_peak(
                notes,
                k,
            ) by {
                if k < np {
                    assert(points@[k] == self.peaks@[k]);
                    assert((k + 1) * 1600 <= np * 1600) by (nonlinear_arith)
                        requires
                            k < np,
                    ;
                }
            }
            assert(points@ =~= meter_points(notes));
            assert forall|k: int| 0 <= k < points@.len() implies #[trigger] points@[k] <= 32768 by {
                let end = if (k + 1) * 1600 < len {
                    (k + 1) * 1600
                } else {
                    len
                };
                assert(0 <= k * 1600 <= end <= len) by (nonlinear_arith)
                    requires
                        0 <= k,
                        k < np + (if self.fill > 0 { 1int } else { 0 }),
                        len == np * 1600 + self.fill,
                        end == if (k + 1) * 1600 < len {
                            (k + 1) * 1600
                        } else {
                            len
                        },
                ;
                let block = notes.subrange(k * 1600, end);
                assert forall|i: int| 0 <= i < block.len() implies #[trigger] block[i] <= 32768 by {
                    assert(block[i] == notes[k * 1600 + i]);
                }
                lemma_loudest_bounded(block, 32768);
                assert(points@[k] == block_peak(notes, k));
            }
        }
        let r = downsample(points.as_slice(), METER_POINTS);
        proof {
            lemma_downsampled_bounded(points@, METER_POINTS as int, r@, 32768);
        }
        r
    }
}

} // verus!
