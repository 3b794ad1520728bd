//! Properties of the library that hold across all inputs.
use vstd::prelude::*;

use crate::chars::{decimal, prefix, trim};
use crate::session::{appears, logged, position_of, stored, with_default_names, Segment, Session, Turn};
use crate::speakers::{
    clean_name_spec, default_name, is_counted, is_visible, ME, OVERLAP_SPEAKER, UNASSIGNED_SPEAKER,
};
use crate::studio::without_session;
use crate::peaks::{block_peak, meter_points};
use crate::transcript::{on_lane, text_line, transcript_spec};
use crate::capture::{
    batch_texts, desktop_batches, flushes, joined, mic_batches, mic_gap_spec, mic_writes, padding,
    recorded_mic_packets, run_actions, run_state, sends, sent_texts, step_actions, step_desktop,
    step_mic, step_mic_on, written_desktop, written_mic, ActionView, CaptureEvent,
};
use crate::wav::live_pcm_text;
use crate::merge::{
    best_match, best_over, best_value, lemma_sorted_contains, segment_start, shared, turn_start,
};
use crate::waveform::{band_shown, speaker_at, wave_bands};
use crate::page::{line_spec, lines_spec, page_spec, page_turns, Portrait};
use crate::text::{clean_title_spec, escape_char, escaped, one_line, short_line_spec, unwrap_lines};

verus! {

/// Whether a text holds no line break.
pub open spec fn single_line(s: Seq<char>) -> bool {
    forall|i: int| 0 <= i < s.len() ==> #[trigger] s[i] != '\r' && s[i] != '\n'
}

proof fn lemma_one_line(value: Seq<char>, limit: int)
    requires
        limit >= 0,
    ensures
        single_line(one_line(value, limit)),
        one_line(value, limit).len() <= limit,
{
    let u = unwrap_lines(trim(value));
    assert forall|i: int| 0 <= i < u.len() implies #[trigger] u[i] != '\r' && u[i] != '\n' by {}
    let p = prefix(u, limit);
    assert forall|i: int| 0 <= i < p.len() implies #[trigger] p[i] != '\r' && p[i] != '\n' by {
        assert(p[i] == u[i]);
    }
}

proof fn lemma_decimal_digits(n: nat)
    ensures
        forall|i: int| 0 <= i < decimal(n).len() ==> 48 <= (#[trigger] decimal(n)[i] as u32) <= 57,
        n < 10 ==> decimal(n).len() == 1,
        n < 100 ==> decimal(n).len() <= 2,
        n < 1000 ==> decimal(n).len() <= 3,
    decreases n,
{
    if n >= 10 {
        lemma_decimal_digits(n / 10);
        let d = decimal(n / 10);
        assert forall|i: int| 0 <= i < decimal(n).len() implies 48 <= (
        #[trigger] decimal(n)[i] as u32) <= 57 by {
            if i < d.len() {
                assert(decimal(n)[i] == d[i]);
            }
        }
    }
}

/// A session title is one line of 1 to 140 characters.
pub proof fn clean_title_is_one_short_line(value: Seq<char>)
    ensures
        single_line(clean_title_spec(value)),
        0 < clean_title_spec(value).len() <= 140,
{
    lemma_one_line(value, 140);
    reveal_strlit("Untitled");
}

/// A speaker name is one line of 1 to 160 characters.
pub proof fn clean_name_is_one_short_line(value: Seq<char>, speaker: u8)
    ensures
        single_line(clean_name_spec(value, speaker)),
        0 < clean_name_spec(value, speaker).len() <= 160,
{
    lemma_one_line(value, 160);
    reveal_strlit("Me");
    reveal_strlit("Overlap");
    reveal_strlit("Unassigned");
    reveal_strlit("Speaker ");
    lemma_decimal_digits((speaker + 1) as nat);
    let d = decimal((speaker + 1) as nat);
    let n = "Speaker "@ + d;
    assert forall|i: int| 0 <= i < n.len() implies #[trigger] n[i] != '\r' && n[i] != '\n' by {
        if i >= 8 {
            assert(n[i] == d[i - 8]);
        }
    }
}

/// Escaped text holds no `<`, `>` or `"`, so it cannot open or close a
/// tag or an attribute.
pub proof fn escaped_has_no_markup(s: Seq<char>)
    ensures
        forall|i: int|
            0 <= i < escaped(s).len() ==> #[trigger] escaped(s)[i] != '<' && escaped(s)[i] != '>'
                && escaped(s)[i] != '"',
    decreases s.len(),
{
    reveal_strlit("&amp;");
    reveal_strlit("&lt;");
    reveal_strlit("&gt;");
    reveal_strlit("&quot;");
    if s.len() > 0 {
        escaped_has_no_markup(s.drop_last());
        let a = escaped(s.drop_last());
        let b = escape_char(s.last());
        assert forall|i: int| 0 <= i < b.len() implies #[trigger] b[i] != '<' && b[i] != '>' && b[i]
            != '"' by {}
        assert forall|i: int| 0 <= i < escaped(s).len() implies #[trigger] escaped(s)[i] != '<'
            && escaped(s)[i] != '>' && escaped(s)[i] != '"' by {
            if i < a.len() {
                assert(escaped(s)[i] == a[i]);
            } else {
                assert(escaped(s)[i] == b[i - a.len()]);
            }
        }
    }
}

/// A status line is at most 180 characters.
pub proof fn short_line_fits(text: Seq<char>)
    ensures
        short_line_spec(text).len() <= 180,
{
}

/// "Me", "Overlap" and "Unassigned" are always included in copies and
/// exports, however few numbered speakers are shown.
pub proof fn special_voices_always_count(max_speakers: u8)
    ensures
        is_counted(ME, max_speakers),
        is_counted(OVERLAP_SPEAKER, max_speakers),
        is_counted(UNASSIGNED_SPEAKER, max_speakers),
{
}

/// After names are filled in, every speaker with activity or lines has a
/// name, and names given before are unchanged.
pub proof fn default_names_cover_every_speaker(
    names: Map<u8, Seq<char>>,
    segments: Seq<Segment>,
    turns: Seq<Turn>,
)
    ensures
        forall|k: u8|
            appears(segments, turns, k) ==> #[trigger] with_default_names(
                names,
                segments,
                turns,
            ).contains_key(k),
        forall|k: u8|
            names.contains_key(k) ==> #[trigger] with_default_names(names, segments, turns)[k]
                == names[k],
        forall|k: u8|
            !names.contains_key(k) && appears(segments, turns, k) ==> #[trigger] with_default_names(
                names,
                segments,
                turns,
            )[k] == default_name(k),
{
}

/// The log never holds more than 300 lines, and its newest line is the
/// one just added.
pub proof fn log_stays_bounded(logs: Seq<String>, line: String)
    requires
        logs.len() <= 300,
    ensures
        logged(logs, line).len() <= 300,
        logged(logs, line).last() == line,
{
}

/// Storing a session puts it in the list exactly where `position_of`
/// finds its id, keeping the list's length when the id was there and
/// growing it by one otherwise.
pub proof fn storing_finds_the_session(sessions: Seq<Session>, session: Session)
    ensures
        stored(sessions, session).contains(session),
        position_of(sessions, session.id@, 0) is Some ==> stored(sessions, session).len()
            == sessions.len(),
        position_of(sessions, session.id@, 0) is None ==> stored(sessions, session).len()
            == sessions.len() + 1 && stored(sessions, session)[0] == session,
{
    lemma_position_of_bounds(sessions, session.id@, 0);
    match position_of(sessions, session.id@, 0) {
        Some(i) => {
            assert(stored(sessions, session)[i] == session);
        },
        None => {
            assert(stored(sessions, session)[0] == session);
        },
    }
}

proof fn lemma_position_of_bounds(sessions: Seq<Session>, id: Seq<char>, i: int)
    ensures
        position_of(sessions, id, i) matches Some(p) ==> 0 <= p < sessions.len() && sessions[p].id@
            == id,
    decreases sessions.len() - i,
{
    if 0 <= i < sessions.len() && sessions[i].id@ != id {
        lemma_position_of_bounds(sessions, id, i + 1);
    }
}

/// Deleting a session leaves no session with its id and keeps every other
/// session.
pub proof fn deleting_removes_only_that_session(sessions: Seq<Session>, id: Seq<char>)
    ensures
        forall|i: int|
            0 <= i < without_session(sessions, id).len() ==> #[trigger] without_session(
                sessions,
                id,
            )[i].id@ != id,
        forall|i: int|
            0 <= i < sessions.len() && #[trigger] sessions[i].id@ != id ==> without_session(
                sessions,
                id,
            ).contains(sessions[i]),
{
    broadcast use vstd::seq_lib::group_filter_ensures;

    let pred = |s: Session| s.id@ != id;
    assert forall|i: int| 0 <= i < sessions.filter(pred).len() implies #[trigger] sessions.filter(
        pred,
    )[i].id@ != id by {
        assert(pred(sessions.filter(pred)[i]));
    }
    assert forall|i: int| 0 <= i < sessions.len() && #[trigger] sessions[i].id@ != id implies sessions.filter(
        pred,
    ).contains(sessions[i]) by {
        assert(pred(sessions[i]));
    }
}

/// Recording more, silence included, leaves every finished tenth of a
/// second of the live meter as it was.
pub proof fn meter_keeps_earlier_audio(notes: Seq<u16>, more: Seq<u16>, k: int)
    requires
        0 <= k,
        (k + 1) * 1600 <= notes.len(),
    ensures
        k < meter_points(notes).len(),
        k < meter_points(notes + more).len(),
        meter_points(notes + more)[k] == meter_points(notes)[k],
{
    let all = notes + more;
    assert(all.subrange(k * 1600, (k + 1) * 1600) =~= notes.subrange(k * 1600, (k + 1) * 1600));
    assert(block_peak(all, k) == block_peak(notes, k));
}

/// Turning the microphone back on pads its track with silence up to the
/// desktop track, so both stay on one clock; a track that is already as
/// long gets no padding.
pub proof fn mic_pad_levels_the_tracks(desktop_samples: u32, mic_samples: u32)
    ensures
        mic_samples <= desktop_samples ==> mic_samples + mic_gap_spec(desktop_samples, mic_samples)
            == desktop_samples,
        mic_samples >= desktop_samples ==> mic_gap_spec(desktop_samples, mic_samples) == 0,
{
}

/// Earlier microphone speech stays on screen: "Me" is always shown, and has
/// a lane whenever it has activity, whether the microphone is on or off.
pub proof fn me_stays_visible(
    segments: Seq<Segment>,
    turns: Seq<Turn>,
    mic_enabled: bool,
    max_speakers: u8,
)
    ensures
        is_visible(ME, max_speakers),
        appears(segments, turns, ME) ==> on_lane(segments, turns, mic_enabled, max_speakers, ME),
{
}

/// Ending a recording hands over everything that waits and leaves nothing
/// waiting; turning the microphone off does the same and stops recording
/// it, so earlier microphone audio is never held back.
pub proof fn ending_sends_everything(mic_on: bool, desktop: Seq<i16>, mic: Seq<i16>)
    ensures
        step_actions(mic_on, desktop, mic, CaptureEvent::Closed) == sends(desktop, mic),
        step_desktop(desktop, mic, CaptureEvent::Closed).len() == 0,
        step_mic(desktop, mic, CaptureEvent::Closed).len() == 0,
        step_actions(mic_on, desktop, mic, CaptureEvent::MicOff) == sends(desktop, mic) + seq![
            ActionView::RestartClock,
        ],
        step_mic(desktop, mic, CaptureEvent::MicOff).len() == 0,
        !step_mic_on(mic_on, CaptureEvent::MicOff),
{
    assert(flushes(CaptureEvent::Closed, desktop, mic));
    assert(flushes(CaptureEvent::MicOff, desktop, mic));
}


proof fn lemma_sent_texts_append(a: Seq<ActionView>, b: Seq<ActionView>, src: Seq<char>)
    ensures
        sent_texts(a + b, src) == sent_texts(a, src) + sent_texts(b, src),
    decreases b.len(),
{
    if b.len() == 0 {
        assert(a + b =~= a);
        assert(sent_texts(a, src) + sent_texts(b, src) =~= sent_texts(a, src));
    } else {
        lemma_sent_texts_append(a, b.drop_last(), src);
        assert((a + b).drop_last() =~= a + b.drop_last());
        assert((a + b).last() == b.last());
        assert(sent_texts(a + b, src) =~= sent_texts(a, src) + sent_texts(b, src));
    }
}

proof fn lemma_mic_writes_append(a: Seq<ActionView>, b: Seq<ActionView>)
    ensures
        mic_writes(a + b) == mic_writes(a) + mic_writes(b),
    decreases b.len(),
{
    if b.len() == 0 {
        assert(a + b =~= a);
        assert(mic_writes(a) + mic_writes(b) =~= mic_writes(a));
    } else {
        lemma_mic_writes_append(a, b.drop_last());
        assert((a + b).drop_last() =~= a + b.drop_last());
        assert((a + b).last() == b.last());
        assert(mic_writes(a + b) =~= mic_writes(a) + mic_writes(b));
    }
}

/// Actions that neither send a batch nor write to the microphone track.
spec fn quiet(x: Seq<ActionView>) -> bool {
    forall|i: int| 0 <= i < x.len() ==> !(#[trigger] x[i] is Send) && !(x[i] is WriteMic)
}

proof fn lemma_quiet(x: Seq<ActionView>, src: Seq<char>)
    requires
        quiet(x),
    ensures
        sent_texts(x, src) == Seq::<Seq<char>>::empty(),
        mic_writes(x) == Seq::<Seq<i16>>::empty(),
    decreases x.len(),
{
    if x.len() > 0 {
        assert(quiet(x.drop_last()));
        lemma_quiet(x.drop_last(), src);
        assert(!(x[x.len() - 1] is Send));
        assert(!(x[x.len() - 1] is WriteMic));
        assert(sent_texts(x, src) =~= Seq::<Seq<char>>::empty());
        assert(mic_writes(x) =~= Seq::<Seq<i16>>::empty());
    }
}

proof fn lemma_one(x: ActionView, src: Seq<char>)
    ensures
        sent_texts(seq![x], src) == match x {
            ActionView::Send(s, t) => if s == src {
                seq![t]
            } else {
                Seq::empty()
            },
            _ => Seq::empty(),
        },
        mic_writes(seq![x]) == match x {
            ActionView::WriteMic(p) => seq![p],
            _ => Seq::empty(),
        },
{
    assert(seq![x].drop_last() =~= Seq::<ActionView>::empty());
    assert(seq![x].last() == x);
    assert(sent_texts(seq![x], src) =~= sent_texts(Seq::<ActionView>::empty(), src) + match x {
        ActionView::Send(s, t) => if s == src {
            seq![t]
        } else {
            Seq::empty()
        },
        _ => Seq::empty(),
    });
    assert(mic_writes(seq![x]) =~= mic_writes(Seq::<ActionView>::empty()) + match x {
        ActionView::WriteMic(p) => seq![p],
        _ => Seq::empty(),
    });
}

/// The batch of `b` for `src`, where something waits.
spec fn one_batch(b: Seq<i16>) -> Seq<Seq<char>> {
    if b.len() > 0 {
        seq![live_pcm_text(b)]
    } else {
        Seq::empty()
    }
}

proof fn lemma_sends(d: Seq<i16>, m: Seq<i16>)
    ensures
        sent_texts(sends(d, m), "desktop"@) == one_batch(d),
        sent_texts(sends(d, m), "mic"@) == one_batch(m),
        mic_writes(sends(d, m)) == Seq::<Seq<i16>>::empty(),
{
    reveal_strlit("desktop");
    reveal_strlit("mic");
    assert("mic"@ != "desktop"@) by {
        assert("mic"@.len() != "desktop"@.len());
    }
    let a: Seq<ActionView> = if d.len() > 0 {
        seq![ActionView::Send("desktop"@, live_pcm_text(d))]
    } else {
        Seq::empty()
    };
    let b: Seq<ActionView> = if m.len() > 0 {
        seq![ActionView::Send("mic"@, live_pcm_text(m))]
    } else {
        Seq::empty()
    };
    assert(sends(d, m) == a + b);
    lemma_sent_texts_append(a, b, "desktop"@);
    lemma_sent_texts_append(a, b, "mic"@);
    lemma_mic_writes_append(a, b);
    lemma_one(ActionView::Send("desktop"@, live_pcm_text(d)), "desktop"@);
    lemma_one(ActionView::Send("desktop"@, live_pcm_text(d)), "mic"@);
    lemma_one(ActionView::Send("mic"@, live_pcm_text(m)), "desktop"@);
    lemma_one(ActionView::Send("mic"@, live_pcm_text(m)), "mic"@);
    assert(sent_texts(Seq::<ActionView>::empty(), "desktop"@) =~= Seq::<Seq<char>>::empty());
    assert(sent_texts(Seq::<ActionView>::empty(), "mic"@) =~= Seq::<Seq<char>>::empty());
    assert(mic_writes(Seq::<ActionView>::empty()) =~= Seq::<Seq<i16>>::empty());
    assert(sent_texts(sends(d, m), "desktop"@) =~= one_batch(d));
    assert(sent_texts(sends(d, m), "mic"@) =~= one_batch(m));
    assert(mic_writes(sends(d, m)) =~= Seq::<Seq<i16>>::empty());
}

/// What one step sends, and what it writes to the microphone track.
proof fn lemma_step(mic_on: bool, d: Seq<i16>, m: Seq<i16>, ev: CaptureEvent)
    ensures
        sent_texts(step_actions(mic_on, d, m, ev), "desktop"@) == if flushes(ev, d, m) {
            one_batch(d)
        } else {
            Seq::empty()
        },
        sent_texts(step_actions(mic_on, d, m, ev), "mic"@) == if flushes(ev, d, m) {
            one_batch(m)
        } else {
            Seq::empty()
        },
        mic_writes(step_actions(mic_on, d, m, ev)) == match ev {
            CaptureEvent::Mic(p) => if mic_on {
                seq![p@]
            } else {
                Seq::empty()
            },
            _ => Seq::empty(),
        },
{
    let acts = step_actions(mic_on, d, m, ev);
    let restart: Seq<ActionView> = seq![ActionView::RestartClock];
    assert(quiet(restart));
    assert(quiet(Seq::<ActionView>::empty()));
    lemma_quiet(Seq::<ActionView>::empty(), "desktop"@);
    lemma_quiet(Seq::<ActionView>::empty(), "mic"@);
    match ev {
        CaptureEvent::MicOn { desktop_samples, mic_samples } => {
            let mid: Seq<ActionView> = match mic_samples {
                Some(n) => padding(mic_gap_spec(desktop_samples, n)),
                None => seq![ActionView::OpenMicTrack],
            };
            assert(quiet(mid));
            assert(quiet(mid + restart));
            assert(acts == sends(d, m) + (mid + restart));
            lemma_sends(d, m);
            lemma_quiet(mid + restart, "desktop"@);
            lemma_quiet(mid + restart, "mic"@);
            lemma_sent_texts_append(sends(d, m), mid + restart, "desktop"@);
            lemma_sent_texts_append(sends(d, m), mid + restart, "mic"@);
            lemma_mic_writes_append(sends(d, m), mid + restart);
        },
        CaptureEvent::MicOff | CaptureEvent::Timeout => {
            lemma_sends(d, m);
            lemma_quiet(restart, "desktop"@);
            lemma_quiet(restart, "mic"@);
            lemma_sent_texts_append(sends(d, m), restart, "desktop"@);
            lemma_sent_texts_append(sends(d, m), restart, "mic"@);
            lemma_mic_writes_append(sends(d, m), restart);
        },
        CaptureEvent::Tick { waited_ms } => {
            if flushes(ev, d, m) {
                lemma_sends(d, m);
                lemma_quiet(restart, "desktop"@);
                lemma_quiet(restart, "mic"@);
                lemma_sent_texts_append(sends(d, m), restart, "desktop"@);
                lemma_sent_texts_append(sends(d, m), restart, "mic"@);
                lemma_mic_writes_append(sends(d, m), restart);
            }
        },
        CaptureEvent::Closed => {
            lemma_sends(d, m);
        },
        CaptureEvent::Mic(p) => {
            if mic_on {
                lemma_one(ActionView::WriteMic(p@), "desktop"@);
                lemma_one(ActionView::WriteMic(p@), "mic"@);
            }
        },
        _ => {
            assert(quiet(acts));
            lemma_quiet(acts, "desktop"@);
            lemma_quiet(acts, "mic"@);
        },
    }
}

proof fn lemma_run_texts(mic_on: bool, desktop: Seq<i16>, mic: Seq<i16>, evs: Seq<CaptureEvent>)
    ensures
        sent_texts(run_actions(mic_on, desktop, mic, evs), "desktop"@) == batch_texts(
            desktop_batches(mic_on, desktop, mic, evs),
        ),
        sent_texts(run_actions(mic_on, desktop, mic, evs), "mic"@) == batch_texts(
            mic_batches(mic_on, desktop, mic, evs),
        ),
        mic_writes(run_actions(mic_on, desktop, mic, evs)) == recorded_mic_packets(
            mic_on,
            desktop,
            mic,
            evs,
        ),
    decreases evs.len(),
{
    if evs.len() == 0 {
        assert(sent_texts(Seq::<ActionView>::empty(), "desktop"@) =~= Seq::<Seq<char>>::empty());
        assert(sent_texts(Seq::<ActionView>::empty(), "mic"@) =~= Seq::<Seq<char>>::empty());
        assert(batch_texts(Seq::<Seq<i16>>::empty()) =~= Seq::<Seq<char>>::empty());
        assert(mic_writes(Seq::<ActionView>::empty()) =~= Seq::<Seq<i16>>::empty());
    } else {
        let pre = evs.drop_last();
        let ev = evs.last();
        lemma_run_texts(mic_on, desktop, mic, pre);
        let s = run_state(mic_on, desktop, mic, pre);
        let before = run_actions(mic_on, desktop, mic, pre);
        let now = step_actions(s.0, s.1, s.2, ev);
        lemma_step(s.0, s.1, s.2, ev);
        lemma_sent_texts_append(before, now, "desktop"@);
        lemma_sent_texts_append(before, now, "mic"@);
        lemma_mic_writes_append(before, now);
        let db = desktop_batches(mic_on, desktop, mic, pre);
        let mb = mic_batches(mic_on, desktop, mic, pre);
        let dnew: Seq<Seq<i16>> = if flushes(ev, s.1, s.2) && s.1.len() > 0 {
            seq![s.1]
        } else {
            Seq::empty()
        };
        let mnew: Seq<Seq<i16>> = if flushes(ev, s.1, s.2) && s.2.len() > 0 {
            seq![s.2]
        } else {
            Seq::empty()
        };
        assert(batch_texts(db + dnew) =~= batch_texts(db) + batch_texts(dnew));
        assert(batch_texts(mb + mnew) =~= batch_texts(mb) + batch_texts(mnew));
        assert(batch_texts(dnew) =~= if flushes(ev, s.1, s.2) {
            one_batch(s.1)
        } else {
            Seq::empty()
        });
        assert(batch_texts(mnew) =~= if flushes(ev, s.1, s.2) {
            one_batch(s.2)
        } else {
            Seq::empty()
        });
        assert(sent_texts(run_actions(mic_on, desktop, mic, evs), "desktop"@) =~= batch_texts(
            desktop_batches(mic_on, desktop, mic, evs),
        ));
        assert(sent_texts(run_actions(mic_on, desktop, mic, evs), "mic"@) =~= batch_texts(
            mic_batches(mic_on, desktop, mic, evs),
        ));
        assert(mic_writes(run_actions(mic_on, desktop, mic, evs)) =~= recorded_mic_packets(
            mic_on,
            desktop,
            mic,
            evs,
        ));
    }
}

proof fn lemma_run_samples(mic_on: bool, desktop: Seq<i16>, mic: Seq<i16>, evs: Seq<CaptureEvent>)
    ensures
        joined(desktop_batches(mic_on, desktop, mic, evs)) + run_state(mic_on, desktop, mic, evs).1
            == desktop + written_desktop(evs),
        joined(mic_batches(mic_on, desktop, mic, evs)) + run_state(mic_on, desktop, mic, evs).2
            == mic + written_mic(evs),
    decreases evs.len(),
{
    if evs.len() == 0 {
        assert(joined(Seq::<Seq<i16>>::empty()) =~= Seq::<i16>::empty());
        assert(Seq::<i16>::empty() + desktop =~= desktop + Seq::<i16>::empty());
        assert(Seq::<i16>::empty() + mic =~= mic + Seq::<i16>::empty());
    } else {
        let pre = evs.drop_last();
        let ev = evs.last();
        lemma_run_samples(mic_on, desktop, mic, pre);
        let s = run_state(mic_on, desktop, mic, pre);
        let db = desktop_batches(mic_on, desktop, mic, pre);
        let mb = mic_batches(mic_on, desktop, mic, pre);
        let dnew: Seq<Seq<i16>> = if flushes(ev, s.1, s.2) && s.1.len() > 0 {
            seq![s.1]
        } else {
            Seq::empty()
        };
        let mnew: Seq<Seq<i16>> = if flushes(ev, s.1, s.2) && s.2.len() > 0 {
            seq![s.2]
        } else {
            Seq::empty()
        };
        if dnew.len() > 0 {
            assert((db + dnew).drop_last() =~= db);
            assert((db + dnew).last() == s.1);
        } else {
            assert(db + dnew =~= db);
        }
        if mnew.len() > 0 {
            assert((mb + mnew).drop_last() =~= mb);
            assert((mb + mnew).last() == s.2);
        } else {
            assert(mb + mnew =~= mb);
        }
        let wd: Seq<i16> = match ev {
            CaptureEvent::DesktopWritten(p) => p@,
            _ => Seq::empty(),
        };
        let wm: Seq<i16> = match ev {
            CaptureEvent::MicWritten(p) => p@,
            _ => Seq::empty(),
        };
        let after = run_state(mic_on, desktop, mic, evs);
        let jd = joined(db);
        let jm = joined(mb);
        assert(written_desktop(evs) == written_desktop(pre) + wd);
        assert(written_mic(evs) == written_mic(pre) + wm);
        if flushes(ev, s.1, s.2) {
            assert(wd =~= Seq::<i16>::empty());
            assert(wm =~= Seq::<i16>::empty());
            assert(after.1 =~= Seq::<i16>::empty());
            assert(after.2 =~= Seq::<i16>::empty());
            assert(joined(db + dnew) + after.1 =~= jd + s.1);
            assert(joined(mb + mnew) + after.2 =~= jm + s.2);
            assert(desktop + written_desktop(evs) =~= desktop + written_desktop(pre));
            assert(mic + written_mic(evs) =~= mic + written_mic(pre));
        } else {
            assert(after.1 =~= s.1 + wd);
            assert(after.2 =~= s.2 + wm);
            assert(joined(db + dnew) == jd);
            assert(joined(mb + mnew) == jm);
            assert(jd + after.1 =~= (jd + s.1) + wd);
            assert(jm + after.2 =~= (jm + s.2) + wm);
            assert((desktop + written_desktop(pre)) + wd =~= desktop + written_desktop(evs));
            assert((mic + written_mic(pre)) + wm =~= mic + written_mic(evs));
        }
    }
}

/// Over any run of the live-capture loop, from what waits at the start:
/// the batches sent for the desktop, taken in order, are the desktop
/// samples that waited and were written, and so for the microphone; what
/// is not sent yet still waits, and once the recording ends nothing
/// waits, so every written sample has gone out exactly once and in order.
/// Microphone packets are asked to be written only while the microphone
/// is recorded, so those that arrive while it is off are neither written
/// nor sent.
pub proof fn capture_sends_every_written_sample(
    mic_on: bool,
    desktop: Seq<i16>,
    mic: Seq<i16>,
    evs: Seq<CaptureEvent>,
)
    ensures
        sent_texts(run_actions(mic_on, desktop, mic, evs), "desktop"@) == batch_texts(
            desktop_batches(mic_on, desktop, mic, evs),
        ),
        sent_texts(run_actions(mic_on, desktop, mic, evs), "mic"@) == batch_texts(
            mic_batches(mic_on, desktop, mic, evs),
        ),
        joined(desktop_batches(mic_on, desktop, mic, evs)) + run_state(mic_on, desktop, mic, evs).1
            == desktop + written_desktop(evs),
        joined(mic_batches(mic_on, desktop, mic, evs)) + run_state(mic_on, desktop, mic, evs).2
            == mic + written_mic(evs),
        evs.len() > 0 && evs.last() is Closed ==> joined(
            desktop_batches(mic_on, desktop, mic, evs),
        ) == desktop + written_desktop(evs) && joined(mic_batches(mic_on, desktop, mic, evs)) == mic
            + written_mic(evs),
        mic_writes(run_actions(mic_on, desktop, mic, evs)) == recorded_mic_packets(
            mic_on,
            desktop,
            mic,
            evs,
        ),
{
    lemma_run_texts(mic_on, desktop, mic, evs);
    lemma_run_samples(mic_on, desktop, mic, evs);
    if evs.len() > 0 && evs.last() is Closed {
        let s = run_state(mic_on, desktop, mic, evs.drop_last());
        assert(flushes(evs.last(), s.1, s.2));
        let after = run_state(mic_on, desktop, mic, evs);
        assert(after.1 =~= Seq::<i16>::empty());
        assert(after.2 =~= Seq::<i16>::empty());
        assert(joined(desktop_batches(mic_on, desktop, mic, evs)) + after.1 =~= joined(
            desktop_batches(mic_on, desktop, mic, evs),
        ));
        assert(joined(mic_batches(mic_on, desktop, mic, evs)) + after.2 =~= joined(
            mic_batches(mic_on, desktop, mic, evs),
        ));
    }
}


proof fn lemma_best_over_longest(old: Seq<Segment>, g: Segment, b: Option<(u8, int)>)
    requires
        best_value(b) >= 0,
    ensures
        best_value(best_over(old, g, b)) >= best_value(b),
        forall|j: int| 0 <= j < old.len() ==> shared(g, #[trigger] old[j]) <= best_value(best_over(old, g, b)),
        best_over(old, g, b) == b || exists|j: int|
            0 <= j < old.len() && best_over(old, g, b) == Some((#[trigger] old[j].speaker, shared(g, old[j])))
                && shared(g, old[j]) > best_value(b),
    decreases old.len(),
{
    if old.len() > 0 {
        let rest = old.drop_last();
        lemma_best_over_longest(rest, g, b);
        let prev = best_over(rest, g, b);
        assert forall|j: int| 0 <= j < old.len() implies shared(g, #[trigger] old[j]) <= best_value(best_over(old, g, b)) by {
            if j < old.len() - 1 {
                assert(old[j] == rest[j]);
            }
        }
        if prev != b {
            let j = choose|j: int|
                0 <= j < rest.len() && prev == Some((#[trigger] rest[j].speaker, shared(g, rest[j])))
                    && shared(g, rest[j]) > best_value(b);
            assert(old[j] == rest[j]);
        }
        if best_over(old, g, b) != prev {
            assert(best_over(old, g, b) == Some(
                (old[old.len() - 1].speaker, shared(g, old[old.len() - 1])),
            ));
        }
    }
}

proof fn lemma_best_match_longest(new: Seq<Segment>, old: Seq<Segment>, speaker: u8)
    ensures
        best_value(best_match(new, old, speaker)) >= 0,
        forall|i: int, j: int|
            0 <= i < new.len() && new[i].speaker == speaker && 0 <= j < old.len() ==> shared(
                #[trigger] new[i],
                #[trigger] old[j],
            ) <= best_value(best_match(new, old, speaker)),
        best_match(new, old, speaker) matches Some(x) ==> x.1 > 0 && exists|i: int, j: int|
            0 <= i < new.len() && 0 <= j < old.len() && #[trigger] new[i].speaker == speaker
                && #[trigger] old[j].speaker == x.0 && x.1 == shared(new[i], old[j]),
    decreases new.len(),
{
    if new.len() > 0 {
        let rest = new.drop_last();
        lemma_best_match_longest(rest, old, speaker);
        let b = best_match(rest, old, speaker);
        let g = new.last();
        if g.speaker == speaker {
            lemma_best_over_longest(old, g, b);
        }
        let r = best_match(new, old, speaker);
        assert forall|i: int, j: int|
            0 <= i < new.len() && new[i].speaker == speaker && 0 <= j < old.len() implies shared(
            #[trigger] new[i],
            #[trigger] old[j],
        ) <= best_value(r) by {
            if i < new.len() - 1 {
                assert(new[i] == rest[i]);
                assert(shared(rest[i], old[j]) <= best_value(b));
            }
        }
        if r is Some {
            let x = r->0;
            if r == b {
                let (i, j) = choose|i: int, j: int|
                    0 <= i < rest.len() && 0 <= j < old.len() && #[trigger] rest[i].speaker == speaker
                        && #[trigger] old[j].speaker == x.0 && x.1 == shared(rest[i], old[j]);
                assert(new[i] == rest[i]);
            } else {
                let j = choose|j: int|
                    0 <= j < old.len() && r == Some((#[trigger] old[j].speaker, shared(g, old[j])))
                        && shared(g, old[j]) > best_value(b);
                assert(new[new.len() - 1] == g);
                assert(new[new.len() - 1].speaker == speaker && old[j].speaker == x.0 && x.1 == shared(new[new.len() - 1], old[j]));
            }
        }
    }
}

/// A re-analysed voice is matched with the old voice it overlaps longest:
/// the chosen overlap is at least that of every pair of one of its new
/// segments and an old segment in the range, and it is the overlap of one
/// such pair with the chosen old voice. Where nothing overlaps, there is no
/// match.
pub proof fn merge_picks_the_longest_overlap(new: Seq<Segment>, old: Seq<Segment>, speaker: u8)
    ensures
        forall|i: int, j: int|
            0 <= i < new.len() && new[i].speaker == speaker && 0 <= j < old.len() ==> match best_match(
                new,
                old,
                speaker,
            ) {
                Some(x) => shared(#[trigger] new[i], #[trigger] old[j]) <= x.1,
                None => shared(new[i], old[j]) == 0,
            },
        best_match(new, old, speaker) matches Some(x) ==> x.1 > 0 && exists|i: int, j: int|
            0 <= i < new.len() && 0 <= j < old.len() && #[trigger] new[i].speaker == speaker
                && #[trigger] old[j].speaker == x.0 && x.1 == shared(new[i], old[j]),
{
    lemma_best_match_longest(new, old, speaker);
    assert forall|i: int, j: int|
        0 <= i < new.len() && new[i].speaker == speaker && 0 <= j < old.len() implies match best_match(
        new,
        old,
        speaker,
    ) {
        Some(x) => shared(#[trigger] new[i], #[trigger] old[j]) <= x.1,
        None => shared(new[i], old[j]) == 0,
    } by {
        assert(shared(new[i], old[j]) >= 0);
    }
}


/// The batches that hand over `d` and then `m`, each only where something
/// waits.
pub open spec fn both_batches(d: Seq<i16>, m: Seq<i16>) -> Seq<ActionView> {
    (if d.len() > 0 {
        seq![ActionView::Send("desktop"@, live_pcm_text(d))]
    } else {
        Seq::empty()
    }) + (if m.len() > 0 {
        seq![ActionView::Send("mic"@, live_pcm_text(m))]
    } else {
        Seq::empty()
    })
}

proof fn lemma_leads_with(acts: Seq<ActionView>, out: Seq<ActionView>, rest: Seq<ActionView>)
    requires
        acts == out + rest,
        quiet(rest),
    ensures
        acts.len() >= out.len(),
        acts.take(out.len() as int) == out,
        forall|k: int| out.len() <= k < acts.len() ==> !(#[trigger] acts[k] is Send),
{
    assert(acts.take(out.len() as int) =~= out);
    assert forall|k: int| out.len() <= k < acts.len() implies !(#[trigger] acts[k] is Send) by {
        assert(acts[k] == rest[k - out.len()]);
    }
}

/// When nothing arrives for a while, when the microphone is switched on or
/// off, when the recording ends, and when a packet comes once the wait or
/// the queued amount is due, every waiting sample goes out: first the
/// desktop's as one batch, then the microphone's as one batch (each only
/// where something waits), no other batch is sent, and nothing waits
/// afterwards.
pub proof fn due_audio_goes_out(mic_on: bool, d: Seq<i16>, m: Seq<i16>, ev: CaptureEvent)
    requires
        ev is Timeout || ev is MicOff || ev is Closed || ev is MicOn || (ev matches CaptureEvent::Tick {
            waited_ms,
        } && (waited_ms >= 50 || d.len() + m.len() >= 4000)),
    ensures
        step_actions(mic_on, d, m, ev).len() >= both_batches(d, m).len(),
        step_actions(mic_on, d, m, ev).take(both_batches(d, m).len() as int) == both_batches(d, m),
        forall|k: int|
            both_batches(d, m).len() <= k < step_actions(mic_on, d, m, ev).len() ==> !(
            #[trigger] step_actions(mic_on, d, m, ev)[k] is Send),
        step_desktop(d, m, ev).len() == 0,
        step_mic(d, m, ev).len() == 0,
{
    let acts = step_actions(mic_on, d, m, ev);
    let out = both_batches(d, m);
    assert(sends(d, m) == out);
    assert(flushes(ev, d, m));
    let restart: Seq<ActionView> = seq![ActionView::RestartClock];
    assert(quiet(restart));
    match ev {
        CaptureEvent::MicOn { desktop_samples, mic_samples } => {
            let mid: Seq<ActionView> = match mic_samples {
                Some(n) => padding(mic_gap_spec(desktop_samples, n)),
                None => seq![ActionView::OpenMicTrack],
            };
            assert(quiet(mid + restart));
            assert(acts == out + (mid + restart));
            lemma_leads_with(acts, out, mid + restart);
        },
        CaptureEvent::Closed => {
            assert(quiet(Seq::<ActionView>::empty()));
            assert(acts =~= out + Seq::<ActionView>::empty());
            lemma_leads_with(acts, out, Seq::<ActionView>::empty());
        },
        _ => {
            assert(acts == out + restart);
            lemma_leads_with(acts, out, restart);
        },
    }
}


/// Whether `x` stands somewhere in `s`, character for character.
pub open spec fn occurs_in(x: Seq<char>, s: Seq<char>) -> bool {
    exists|k: int| 0 <= k && k + x.len() <= s.len() && #[trigger] s.subrange(k, k + x.len()) == x
}

proof fn lemma_occurs_at(x: Seq<char>, u: Seq<char>, v: Seq<char>)
    ensures
        occurs_in(x, u + x + v),
{
    let s = u + x + v;
    assert(s.subrange(u.len() as int, (u.len() + x.len()) as int) =~= x);
}

proof fn lemma_occurs_in_longer(x: Seq<char>, s: Seq<char>, u: Seq<char>, v: Seq<char>)
    requires
        occurs_in(x, s),
    ensures
        occurs_in(x, u + s + v),
{
    let k = choose|k: int| 0 <= k && k + x.len() <= s.len() && #[trigger] s.subrange(k, k + x.len()) == x;
    let t = u + s + v;
    assert(t.subrange(u.len() + k, u.len() + k + x.len()) =~= s.subrange(k, k + x.len()));
}

/// Whether a speaker's lines count with the first `max_speakers` numbered
/// speakers shown: "Me", "Overlap", "Unassigned" and those numbered speakers.
pub open spec fn counts(speaker: u8, max_speakers: u8) -> bool {
    speaker == ME || speaker == OVERLAP_SPEAKER || speaker == UNASSIGNED_SPEAKER || speaker < max_speakers
}

/// Every line of a speaker that counts and whose time touches the selection
/// `[a, b]` (it ends at or after `a` and starts at or before `b`) is in the
/// copied text, whatever its end.
pub proof fn selection_text_has_every_touching_line(
    turns: Seq<Turn>,
    names: Map<u8, Seq<char>>,
    a: u64,
    b: u64,
    max_speakers: u8,
    i: int,
)
    requires
        0 <= i < turns.len(),
        counts(turns[i].speaker, max_speakers),
        turns[i].end >= a,
        turns[i].start <= b,
    ensures
        occurs_in(text_line(names, turns[i]), transcript_spec(turns, names, a, b, max_speakers)),
    decreases turns.len(),
{
    let before = transcript_spec(turns.drop_last(), names, a, b, max_speakers);
    let whole = transcript_spec(turns, names, a, b, max_speakers);
    let t = turns.last();
    let line = text_line(names, turns[i]);
    if i < turns.len() - 1 {
        assert(turns.drop_last()[i] == turns[i]);
        selection_text_has_every_touching_line(turns.drop_last(), names, a, b, max_speakers, i);
        if !is_counted(t.speaker, max_speakers) || !(t.end >= a && t.start <= b) {
            assert(whole == before);
            assert(whole =~= Seq::<char>::empty() + before + Seq::<char>::empty());
        } else if before.len() == 0 {
            reveal_strlit("[");
            assert(line.len() > 0);
            assert(false);
        } else {
            assert(whole == before + ("\n"@ + text_line(names, t)));
            assert(whole =~= Seq::<char>::empty() + before + ("\n"@ + text_line(names, t)));
        }
        lemma_occurs_in_longer(
            line,
            before,
            Seq::<char>::empty(),
            if whole == before {
                Seq::<char>::empty()
            } else {
                "\n"@ + text_line(names, t)
            },
        );
    } else {
        assert(turns[i] == t);
        if before.len() == 0 {
            assert(whole =~= Seq::<char>::empty() + line + Seq::<char>::empty());
            lemma_occurs_at(line, Seq::<char>::empty(), Seq::<char>::empty());
        } else {
            assert(whole =~= (before + "\n"@) + line + Seq::<char>::empty());
            lemma_occurs_at(line, before + "\n"@, Seq::<char>::empty());
        }
    }
}


proof fn lemma_lines_hold(portraits: Seq<Portrait>, names: Map<u8, Seq<char>>, ts: Seq<Turn>, k: int)
    requires
        0 <= k < ts.len(),
    ensures
        occurs_in(line_spec(portraits, names, ts[k]), lines_spec(portraits, names, ts)),
    decreases ts.len(),
{
    let rest = ts.drop_last();
    let before = lines_spec(portraits, names, rest);
    let last = line_spec(portraits, names, ts.last());
    if k < ts.len() - 1 {
        assert(rest[k] == ts[k]);
        lemma_lines_hold(portraits, names, rest, k);
        lemma_occurs_in_longer(line_spec(portraits, names, ts[k]), before, Seq::<char>::empty(), last);
        assert(Seq::<char>::empty() + before + last =~= lines_spec(portraits, names, ts));
    } else {
        lemma_occurs_at(last, before, Seq::<char>::empty());
        assert(before + last + Seq::<char>::empty() =~= lines_spec(portraits, names, ts));
    }
}

/// Every line of a speaker that counts ("Me", "Overlap", "Unassigned", or a
/// numbered speaker below `max_speakers`) is on the exported page, as an
/// article with its speaker's name, time stamp and words.
pub proof fn page_shows_every_counted_line(session: Session, portraits: Seq<Portrait>, i: int)
    requires
        0 <= i < session.turns@.len(),
        counts(session.turns@[i].speaker, session.max_speakers),
    ensures
        occurs_in(
            line_spec(portraits, session.speakers@, session.turns@[i]),
            page_spec(session, portraits),
        ),
{
    let turns = session.turns@;
    let max = session.max_speakers;
    let names = session.speakers@;
    let x = turns[i];
    let pred = |t: Turn| is_counted(t.speaker, max);
    turns.lemma_filter_contains(pred, i);
    let shown = turns.filter(pred);
    lemma_sorted_contains(shown, |t: Turn| turn_start(t), x);
    let pts = page_turns(turns, max);
    assert(pts == crate::merge::sort_by_start(shown, |t: Turn| turn_start(t)));
    assert(pts.contains(x));
    let k = choose|k: int| 0 <= k < pts.len() && pts[k] == x;
    lemma_lines_hold(portraits, names, pts, k);
    let lines = lines_spec(portraits, names, pts);
    let line = line_spec(portraits, names, x);
    let at = choose|at: int| 0 <= at && at + line.len() <= lines.len() && #[trigger] lines.subrange(at, at + line.len()) == line;
    let page = page_spec(session, portraits);
    let tail = "</main></body></html>"@;
    let off = page.len() - tail.len() - lines.len();
    assert forall|j: int| 0 <= j < lines.len() implies page[off + j] == #[trigger] lines[j] by {}
    assert(page.subrange(off + at, off + at + line.len()) =~= line) by {
        assert forall|j: int| 0 <= j < line.len() implies page.subrange(off + at, off + at + line.len())[j]
            == line[j] by {
            assert(lines.subrange(at, at + line.len())[j] == lines[at + j]);
        }
    }
}


proof fn lemma_covered_is_painted(bands: Seq<Segment>, t: int, k: int)
    requires
        0 <= k < bands.len(),
        bands[k].start <= t < bands[k].end,
    ensures
        speaker_at(bands, t) is Some,
        speaker_at(bands, t) matches Some(s) ==> exists|j: int|
            0 <= j < bands.len() && #[trigger] bands[j].speaker == s && bands[j].start <= t < bands[j].end,
    decreases bands.len(),
{
    if !(bands[0].start <= t < bands[0].end) {
        assert(k > 0);
        assert(bands.drop_first()[k - 1] == bands[k]);
        lemma_covered_is_painted(bands.drop_first(), t, k - 1);
        let s = speaker_at(bands, t)->0;
        let j = choose|j: int|
            0 <= j < bands.drop_first().len() && #[trigger] bands.drop_first()[j].speaker == s
                && bands.drop_first()[j].start <= t < bands.drop_first()[j].end;
        assert(bands[j + 1] == bands.drop_first()[j]);
    }
}

/// Every moment inside a stretch of "Overlap", "Unassigned" or a numbered
/// speaker below `max_speakers` that lasts some time is coloured on the
/// waveform, and always with the speaker of a stretch that covers it.
pub proof fn wave_paints_every_shown_stretch(segments: Seq<Segment>, max_speakers: u8, k: int, t: int)
    requires
        0 <= k < segments.len(),
        segments[k].speaker == OVERLAP_SPEAKER || segments[k].speaker == UNASSIGNED_SPEAKER
            || segments[k].speaker < max_speakers,
        segments[k].start <= t < segments[k].end,
    ensures
        speaker_at(wave_bands(segments, max_speakers), t) is Some,
        speaker_at(wave_bands(segments, max_speakers), t) matches Some(s) ==> exists|j: int|
            0 <= j < segments.len() && #[trigger] segments[j].speaker == s && segments[j].start <= t
                < segments[j].end,
{
    let g = segments[k];
    let pred = |x: Segment| band_shown(x, max_speakers);
    assert(pred(g));
    segments.lemma_filter_contains(pred, k);
    let shown = segments.filter(pred);
    lemma_sorted_contains(shown, |x: Segment| segment_start(x), g);
    let bands = wave_bands(segments, max_speakers);
    assert(bands == crate::merge::sort_by_start(shown, |x: Segment| segment_start(x)));
    let m = choose|m: int| 0 <= m < bands.len() && bands[m] == g;
    lemma_covered_is_painted(bands, t, m);
    let s = speaker_at(bands, t)->0;
    let j = choose|j: int|
        0 <= j < bands.len() && #[trigger] bands[j].speaker == s && bands[j].start <= t < bands[j].end;
    assert(bands.contains(bands[j]));
    lemma_sorted_contains(shown, |x: Segment| segment_start(x), bands[j]);
    assert(shown.contains(bands[j]));
    segments.lemma_filter_contains_rev(pred, bands[j]);
    let w = choose|w: int| 0 <= w < segments.len() && segments[w] == bands[j];
    assert(segments[w].speaker == s);
}

} // verus!
