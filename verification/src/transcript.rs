//! What the transcript looks like as text: time stamps, the lines of a
//! selection, and which speakers get a lane.
use vstd::prelude::*;

use crate::chars::{decimal, digit_char, push_char, push_decimal};
use crate::session::{appears, Segment, Session, Turn};
use crate::speakers::{is_counted, is_visible, visible, Speakers, ME};

verus! {

/// Microseconds in a minute.
pub const MINUTE: u64 = 60_000_000;

/// Tenths of a second past the minute, rounded half to even.
pub open spec fn stamp_tenths(us: nat) -> nat {
    let rem = us % 60_000_000;
    let t = rem / 100_000;
    let r = rem % 100_000;
    if r > 50_000 || (r == 50_000 && t % 2 == 1) {
        t + 1
    } else {
        t
    }
}

/// `minutes:ss.t` for a time in microseconds: whole minutes, then the
/// seconds past the minute to a tenth, padded to two digits.
pub open spec fn stamp_spec(us: nat) -> Seq<char> {
    let t = stamp_tenths(us);
    decimal(us / 60_000_000) + seq![':', digit_char(t / 100), digit_char((t / 10) % 10), '.', digit_char(t % 10)]
}

/// Appends the time stamp of `us` microseconds.
pub fn push_stamp(out: &mut String, us: u64)
    ensures
        final(out)@ == old(out)@ + stamp_spec(us as nat),
{
    let minutes = us / MINUTE;
    let rem = us % MINUTE;
    let t0 = rem / 100_000;
    let r = rem % 100_000;
    let t = if r > 50_000 || (r == 50_000 && t0 % 2 == 1) {
        t0 + 1
    } else {
        t0
    };
    assert(t <= 600);
    push_decimal(out, minutes);
    let ghost mid = out@;
    push_char(out, ':');
    push_char(out, ((48 + t / 100) as u8) as char);
    push_char(out, ((48 + (t / 10) % 10) as u8) as char);
    push_char(out, '.');
    push_char(out, ((48 + t % 10) as u8) as char);
    assert(out@ =~= old(out)@ + stamp_spec(us as nat));
}

/// The time stamp of `us` microseconds, as `minutes:ss.t`.
pub fn stamp(us: u64) -> (r: String)
    ensures
        r@ == stamp_spec(us as nat),
{
    let mut s = String::new();
    push_stamp(&mut s, us);
    assert(Seq::<char>::empty() + stamp_spec(us as nat) =~= stamp_spec(us as nat));
    s
}

/// A speaker's name in a plain-text transcript: the given name, or
/// "Speaker".
pub open spec fn text_name(names: Map<u8, Seq<char>>, speaker: u8) -> Seq<char> {
    if names.contains_key(speaker) {
        names[speaker]
    } else {
        "Speaker"@
    }
}

/// One line of a plain-text transcript: `[stamp] name: words`.
pub open spec fn text_line(names: Map<u8, Seq<char>>, t: Turn) -> Seq<char> {
    "["@ + stamp_spec(t.start as nat) + "] "@ + text_name(names, t.speaker) + ": "@ + t.text@
}

/// Whether a line belongs in the text of the range `[a, b]` with the first
/// `max_speakers` numbered speakers shown.
pub open spec fn in_text(t: Turn, a: u64, b: u64, max_speakers: u8) -> bool {
    is_counted(t.speaker, max_speakers) && t.end >= a && t.start <= b
}

/// The lines of the range, one per line in the order given.
pub open spec fn transcript_spec(
    turns: Seq<Turn>,
    names: Map<u8, Seq<char>>,
    a: u64,
    b: u64,
    max_speakers: u8,
) -> Seq<char>
    decreases turns.len(),
{
    if turns.len() == 0 {
        Seq::empty()
    } else {
        let before = transcript_spec(turns.drop_last(), names, a, b, max_speakers);
        let t = turns.last();
        if !in_text(t, a, b, max_speakers) {
            before
        } else if before.len() == 0 {
            text_line(names, t)
        } else {
            before + "\n"@ + text_line(names, t)
        }
    }
}

fn push_text_line(out: &mut String, speakers: &Speakers, t: &Turn)
    ensures
        final(out)@ == old(out)@ + text_line(speakers@, *t),
{
    out.append("[");
    push_stamp(out, t.start);
    out.append("] ");
    match speakers.get(t.speaker) {
        Some(info) => out.append(info.name.as_str()),
        None => out.append("Speaker"),
    }
    out.append(": ");
    out.append(t.text.as_str());
    assert(out@ =~= old(out)@ + text_line(speakers@, *t));
}

/// The transcript lines of the session that touch `[start, end]`, for the
/// speakers that count with the first `max_speakers` numbered ones shown,
/// as `[stamp] name: words`, one per line.
pub fn transcript_text(session: &Session, start: u64, end: u64, max_speakers: u8) -> (r: String)
    ensures
        r@ == transcript_spec(session.turns@, session.speakers@, start, end, max_speakers),
{
    let turns = &session.turns;
    let mut out = String::new();
    let mut i: usize = 0;
    while i < turns.len()
        invariant
            i <= turns@.len(),
            out@ == transcript_spec(turns@.take(i as int), session.speakers@, start, end, max_speakers),
            forall|k: int| 0 <= k < i ==> in_text(#[trigger] turns@[k], start, end, max_speakers)
                ==> out@.len() > 0,
        decreases turns.len() - i,
    {
        let t = &turns[i];
        let any = !(out.as_str().unicode_len() == 0);
        assert(turns@.take(i + 1).drop_last() =~= turns@.take(i as int));
        assert(turns@.take(i + 1).last() == *t);
        if crate::speakers::counted_speaker(t.speaker, max_speakers) && t.end >= start && t.start
            <= end {
            if any {
                out.append("\n");
            }
            push_text_line(&mut out, &session.speakers, t);
        }
        i = i + 1;
    }
    assert(turns@.take(turns@.len() as int) =~= turns@);
    out
}

/// Whether a speaker gets a lane: it has activity or lines and is visible,
/// or it is "Me" while the microphone is on.
pub open spec fn on_lane(
    segments: Seq<Segment>,
    turns: Seq<Turn>,
    mic_enabled: bool,
    max_speakers: u8,
    speaker: u8,
) -> bool {
    (appears(segments, turns, speaker) && is_visible(speaker, max_speakers)) || (
    mic_enabled && speaker == ME)
}

/// The speakers that get a lane, each once, in increasing order.
pub fn lane_speakers(
    segments: &Vec<Segment>,
    turns: &Vec<Turn>,
    mic_enabled: bool,
    max_speakers: u8,
) -> (r: Vec<u8>)
    ensures
        forall|i: int, j: int| 0 <= i < j < r@.len() ==> r@[i] < r@[j],
        forall|k: u8| r@.contains(k) <==> on_lane(segments@, turns@, mic_enabled, max_speakers, k),
{
    let mut present: Vec<bool> = Vec::new();
    let mut n: usize = 0;
    while n < 256
        invariant
            n <= 256,
            present@.len() == n,
            forall|k: int| 0 <= k < n ==> !#[trigger] present@[k],
        decreases 256 - n,
    {
        present.push(false);
        n = n + 1;
    }
    let mut i: usize = 0;
    while i < segments.len()
        invariant
            i <= segments@.len(),
            present@.len() == 256,
            forall|k: u8|
                #[trigger] present@[k as int] <==> (exists|m: int|
                    0 <= m < i && segments@[m].speaker == k) && is_visible(
                    k,
                    max_speakers,
                ),
        decreases segments.len() - i,
    {
        let k = segments[i].speaker;
        if visible(k, max_speakers) {
            present.set(k as usize, true);
        }
        proof {
            assert forall|x: u8| #[trigger] present@[x as int] <==> (exists|m: int|
                0 <= m < i + 1 && segments@[m].speaker == x) && is_visible(
                x,
                max_speakers,
            ) by {
                if x == k {
                    assert(segments@[i as int].speaker == x);
                } else if exists|m: int| 0 <= m < i + 1 && segments@[m].speaker == x {
                    let m = choose|m: int| 0 <= m < i + 1 && segments@[m].speaker == x;
                    assert(m < i);
                }
            }
        }
        i = i + 1;
    }
    let mut j: usize = 0;
    while j < turns.len()
        invariant
            j <= turns@.len(),
            present@.len() == 256,
            forall|k: u8|
                #[trigger] present@[k as int] <==> ((exists|m: int|
                    0 <= m < segments@.len() && segments@[m].speaker == k) || (exists|m: int|
                    0 <= m < j && turns@[m].speaker == k)) && is_visible(
                    k,
                    max_speakers,
                ),
        decreases turns.len() - j,
    {
        let k = turns[j].speaker;
        if visible(k, max_speakers) {
            present.set(k as usize, true);
        }
        proof {
            assert forall|x: u8| #[trigger] present@[x as int] <==> ((exists|m: int|
                0 <= m < segments@.len() && segments@[m].speaker == x) || (exists|m: int|
                0 <= m < j + 1 && turns@[m].speaker == x)) && is_visible(
                x,
                max_speakers,
            ) by {
                if x == k {
                    assert(turns@[j as int].speaker == x);
                } else if exists|m: int| 0 <= m < j + 1 && turns@[m].speaker == x {
                    let m = choose|m: int| 0 <= m < j + 1 && turns@[m].speaker == x;
                    assert(m < j);
                }
            }
        }
        j = j + 1;
    }
    if mic_enabled {
        present.set(ME as usize, true);
    }
    let mut out: Vec<u8> = Vec::new();
    let mut k: usize = 0;
    while k < 256
        invariant
            k <= 256,
            present@.len() == 256,
            forall|a: int, b: int| 0 <= a < b < out@.len() ==> out@[a] < out@[b],
            forall|a: int| 0 <= a < out@.len() ==> #[trigger] out@[a] < k,
            forall|x: u8| x < k ==> (out@.contains(x) <==> #[trigger] present@[x as int]),
            forall|x: u8| x >= k ==> !out@.contains(x),
        decreases 256 - k,
    {
        let ghost before = out@;
        if present[k] {
            out.push(k as u8);
        }
        proof {
            assert forall|x: u8| x < k + 1 implies (out@.contains(x) <==> #[trigger] present@[
                x as int]) by {
                if out@ != before {
                    assert(out@ == before.push(k as u8));
                    if out@.contains(x) && x != k {
                        let m = choose|m: int| 0 <= m < out@.len() && out@[m] == x;
                        assert(m < before.len());
                        assert(before.contains(x));
                    }
                    if x < k && before.contains(x) {
                        let m = choose|m: int| 0 <= m < before.len() && before[m] == x;
                        assert(out@[m] == x);
                    }
                    assert(out@[before.len() as int] == k);
                }
            }
            assert forall|x: u8| x >= k + 1 implies !out@.contains(x) by {
                if out@.contains(x) {
                    let m = choose|m: int| 0 <= m < out@.len() && out@[m] == x;
                    if m < before.len() {
                        assert(before[m] == x);
                        assert(before.contains(x));
                    }
                }
            }
        }
        k = k + 1;
    }
    proof {
        assert forall|x: u8| out@.contains(x) <==> on_lane(
            segments@,
            turns@,
            mic_enabled,
            max_speakers,
            x,
        ) by {
            assert(out@.contains(x) <==> present@[x as int]);
        }
    }
    out
}

/// How long after its end a line still shows as the one being played, in
/// microseconds (0.35 s).
pub const LINE_SLACK: u64 = 350_000;

/// Whether the line is the one being played at `position`: from its start
/// until `LINE_SLACK` after its end.
pub fn line_is_playing(position: u64, turn: &Turn) -> (r: bool)
    ensures
        r == (turn.start <= position && position < turn.end + LINE_SLACK),
{
    turn.start <= position && (position < turn.end || position - turn.end < LINE_SLACK)
}

} // verus!
