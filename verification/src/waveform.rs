//! Which speaker colours each point of the waveform.
use vstd::prelude::*;

use crate::merge::{lemma_sort_by_start, segment_start, sort_by_start, sort_segments, starts_in_order};
use crate::session::Segment;
use crate::speakers::{is_shown_in_wave, shown_in_wave};

verus! {

/// Whether a stretch of activity is painted on the waveform: its speaker is
/// shown there and it lasts some time.
pub open spec fn band_shown(g: Segment, max_speakers: u8) -> bool {
    is_shown_in_wave(g.speaker, max_speakers) && g.end > g.start
}

/// The painted stretches in order of start time (ties keep their order).
pub open spec fn wave_bands(segments: Seq<Segment>, max_speakers: u8) -> Seq<Segment> {
    sort_by_start(
        segments.filter(|g: Segment| band_shown(g, max_speakers)),
        |g: Segment| segment_start(g),
    )
}

/// The time of point `i` of `points` across a recording of `duration`
/// microseconds.
pub open spec fn point_time(i: int, points: int, duration: int) -> int {
    if duration > 0 {
        i * duration / points
    } else {
        0
    }
}

/// The speaker of the first band, in order, that covers time `t`.
pub open spec fn speaker_at(bands: Seq<Segment>, t: int) -> Option<u8>
    decreases bands.len(),
{
    if bands.len() == 0 {
        None
    } else if bands[0].start <= t < bands[0].end {
        Some(bands[0].speaker)
    } else {
        speaker_at(bands.drop_first(), t)
    }
}

proof fn lemma_speaker_at_skip(bands: Seq<Segment>, t: int, k: int)
    requires
        0 <= k <= bands.len(),
        forall|j: int| 0 <= j < k ==> !(bands[j].start <= t < #[trigger] bands[j].end),
    ensures
        speaker_at(bands, t) == speaker_at(bands.skip(k), t),
    decreases k,
{
    if k == 0 {
        assert(bands.skip(0) =~= bands);
    } else {
        assert(!(bands[0].start <= t < bands[0].end));
        assert forall|j: int| 0 <= j < k - 1 implies !(bands.drop_first()[j].start <= t
            < #[trigger] bands.drop_first()[j].end) by {
            assert(bands.drop_first()[j] == bands[j + 1]);
        }
        lemma_speaker_at_skip(bands.drop_first(), t, k - 1);
        assert(bands.drop_first().skip(k - 1) =~= bands.skip(k));
    }
}

proof fn lemma_speaker_at_late(bands: Seq<Segment>, t: int)
    requires
        forall|j: int| 0 <= j < bands.len() ==> #[trigger] bands[j].start > t,
    ensures
        speaker_at(bands, t) is None,
    decreases bands.len(),
{
    if bands.len() > 0 {
        assert(bands[0].start > t);
        assert forall|j: int| 0 <= j < bands.drop_first().len() implies #[trigger] bands.drop_first()[j].start
            > t by {
            assert(bands.drop_first()[j] == bands[j + 1]);
        }
        lemma_speaker_at_late(bands.drop_first(), t);
    }
}

fn shown_bands(segments: &Vec<Segment>, max_speakers: u8) -> (r: Vec<Segment>)
    ensures
        r@ == segments@.filter(|g: Segment| band_shown(g, max_speakers)),
{
    let mut r: Vec<Segment> = Vec::new();
    let mut i: usize = 0;
    while i < segments.len()
        invariant
            i <= segments@.len(),
            r@ == segments@.take(i as int).filter(|g: Segment| band_shown(g, max_speakers)),
        decreases segments.len() - i,
    {
        let g = segments[i];
        if shown_in_wave(g.speaker, max_speakers) && g.end > g.start {
            r.push(g);
        }
        proof {
            reveal(Seq::filter);
            assert(segments@.take(i + 1).drop_last() =~= segments@.take(i as int));
            assert(segments@.take(i + 1).last() == g);
        }
        i = i + 1;
    }
    assert(segments@.take(segments@.len() as int) =~= segments@);
    r
}

/// For each of `points` points across a recording of `duration`
/// microseconds, the speaker whose painted stretch covers its time: the
/// first such stretch in order of start time, or none.
pub fn wave_speakers(segments: &Vec<Segment>, max_speakers: u8, points: usize, duration: u64) -> (r: Vec<
    Option<u8>,
>)
    ensures
        r@.len() == points,
        forall|i: int|
            0 <= i < points ==> #[trigger] r@[i] == speaker_at(
                wave_bands(segments@, max_speakers),
                point_time(i, points as int, duration as int),
            ),
{
    let mut bands = shown_bands(segments, max_speakers);
    sort_segments(&mut bands);
    let ghost all = bands@;
    proof {
        lemma_sort_by_start(
            segments@.filter(|g: Segment| band_shown(g, max_speakers)),
            |g: Segment| segment_start(g),
        );
    }
    let mut out: Vec<Option<u8>> = Vec::new();
    let mut cursor: usize = 0;
    let mut last: u64 = 0;
    let mut i: usize = 0;
    while i < points
        invariant
            bands@ == all,
            all == wave_bands(segments@, max_speakers),
            starts_in_order(all, |g: Segment| segment_start(g)),
            i <= points,
            cursor <= all.len(),
            out@.len() == i,
            i > 0 ==> last == point_time(i - 1, points as int, duration as int),
            i == 0 ==> last == 0,
            forall|j: int| 0 <= j < cursor ==> #[trigger] all[j].end <= last,
            forall|k: int|
                0 <= k < i ==> #[trigger] out@[k] == speaker_at(
                    all,
                    point_time(k, points as int, duration as int),
                ),
        decreases points - i,
    {
        let t: u64 = if duration > 0 {
            assert((i as int) * (duration as int) <= (points as int) * (duration as int))
                by (nonlinear_arith)
                requires
                    i < points,
                    0 < duration,
            ;
            assert((i as int) * (duration as int) / (points as int) <= duration) by (nonlinear_arith)
                requires
                    (i as int) * (duration as int) <= (points as int) * (duration as int),
                    0 < points,
                    0 <= i,
                    0 < duration,
            ;
            assert((i as int) * (duration as int) <= 0xffff_ffff_ffff_ffff * 0xffff_ffff_ffff_ffffint)
                by (nonlinear_arith)
                requires
                    0 <= i <= 0xffff_ffff_ffff_ffffint,
                    0 <= duration <= 0xffff_ffff_ffff_ffffint,
            ;
            ((i as u128) * (duration as u128) / (points as u128)) as u64
        } else {
            0
        };
        let ghost tt = point_time(i as int, points as int, duration as int);
        assert(t == tt);
        proof {
            if i > 0 && duration > 0 {
                assert((i - 1) * (duration as int) <= (i as int) * (duration as int))
                    by (nonlinear_arith)
                    requires
                        0 < i,
                        0 < duration,
                ;
                vstd::arithmetic::div_mod::lemma_div_is_ordered(
                    (i - 1) * (duration as int),
                    (i as int) * (duration as int),
                    points as int,
                );
            }
            assert(last <= t);
        }
        while cursor < bands.len() && bands[cursor].end <= t
            invariant
                bands@ == all,
                cursor <= all.len(),
                forall|j: int| 0 <= j < cursor ==> #[trigger] all[j].end <= t,
            decreases bands.len() - cursor,
        {
            cursor = cursor + 1;
        }
        let mut probe = cursor;
        while probe < bands.len() && bands[probe].start <= t && bands[probe].end <= t
            invariant
                bands@ == all,
                cursor <= probe <= all.len(),
                forall|j: int| 0 <= j < cursor ==> #[trigger] all[j].end <= t,
                forall|j: int| cursor <= j < probe ==> #[trigger] all[j].end <= t,
            decreases bands.len() - probe,
        {
            probe = probe + 1;
        }
        let found = if probe < bands.len() && bands[probe].start <= t {
            Some(bands[probe].speaker)
        } else {
            None
        };
        proof {
            assert forall|j: int| 0 <= j < probe implies !(all[j].start <= t < #[trigger] all[j].end) by {
                if j < cursor {
                } else {
                }
            }
            lemma_speaker_at_skip(all, t as int, probe as int);
            let rest = all.skip(probe as int);
            if probe < all.len() && all[probe as int].start <= t {
                assert(rest[0] == all[probe as int]);
            } else if probe < all.len() {
                assert forall|j: int| 0 <= j < rest.len() implies #[trigger] rest[j].start > t by {
                    assert(rest[j] == all[probe + j]);
                    assert(segment_start(all[probe as int]) <= segment_start(all[probe + j]));
                }
                lemma_speaker_at_late(rest, t as int);
            } else {
                assert(rest.len() == 0);
            }
        }
        out.push(found);
        last = t;
        i = i + 1;
    }
    out
}

} // verus!
