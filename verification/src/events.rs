//! How the speech engine's replies change a session: a finished analysis,
//! a live update, a progress note, or a failure.
use vstd::prelude::*;

use crate::merge::{merge_selection, merged_segments, merged_turns};
use crate::session::{ensure_speakers, same_recording, with_default_names, Segment, Session, Turn};
use crate::chars::str_eq;
use crate::text::{short_line, short_line_spec};

verus! {

/// The note a finished analysis leaves: the engine's own, or "Transcript
/// ready" where it sent none.
pub open spec fn result_message(message: Seq<char>) -> Seq<char> {
    if message.len() == 0 {
        "Transcript ready"@
    } else {
        message
    }
}

/// Takes in a finished analysis. With a range (`start` and `end` both
/// given) it replaces that range as `merge_selection` does; otherwise it
/// replaces the whole transcript. Every speaker then gets a name, the
/// status becomes "done" and the note is the engine's message.
pub fn apply_result(
    session: &mut Session,
    segments: Vec<Segment>,
    turns: Vec<Turn>,
    message: String,
    start: Option<u64>,
    end: Option<u64>,
)
    ensures
        ({
            let (s, t) = match (start, end) {
                (Some(a), Some(b)) => (
                    merged_segments(old(session).segments@, old(session).turns@, segments@, turns@, a, b),
                    merged_turns(old(session).segments@, old(session).turns@, segments@, turns@, a, b),
                ),
                _ => (segments@, turns@),
            };
            &&& final(session).segments@ == s
            &&& final(session).turns@ == t
        }),
        final(session).speakers@ == with_default_names(
            old(session).speakers@,
            final(session).segments@,
            final(session).turns@,
        ),
        final(session).status@ == "done"@,
        final(session).message@ == result_message(message@),
        same_recording(*final(session), *old(session)),
{
    match (start, end) {
        (Some(a), Some(b)) => merge_selection(session, segments, turns, a, b),
        _ => {
            session.segments = segments;
            session.turns = turns;
        },
    }
    ensure_speakers(session);
    session.status = String::from_str("done");
    if message.as_str().unicode_len() == 0 {
        session.message = String::from_str("Transcript ready");
    } else {
        session.message = message;
    }
}

/// The note of a live session while the microphone is on.
pub open spec fn live_note_mic() -> Seq<char> {
    "Party on the desktop audio, you on the microphone. Words appear a few seconds later."@
}

/// The note of a live session while the microphone is off.
pub open spec fn live_note_desktop() -> Seq<char> {
    "Party on the desktop audio. Microphone is off. Words appear a few seconds later."@
}

/// Takes in a live update, but only while the session is still live: the
/// transcript so far replaces the old one, every speaker gets a name and
/// the note says whether the microphone is on. Returns whether it did.
pub fn apply_live(session: &mut Session, segments: Vec<Segment>, turns: Vec<Turn>, mic_on: bool) -> (applied: bool)
    ensures
        applied == (old(session).status@ == "live"@),
        !applied ==> *final(session) == *old(session),
        applied ==> {
            &&& final(session).segments@ == segments@
            &&& final(session).turns@ == turns@
            &&& final(session).speakers@ == with_default_names(
                old(session).speakers@,
                segments@,
                turns@,
            )
            &&& final(session).status == old(session).status
            &&& final(session).message@ == if mic_on {
                live_note_mic()
            } else {
                live_note_desktop()
            }
            &&& same_recording(*final(session), *old(session))
        },
{
    if !str_eq(session.status.as_str(), "live") {
        return false;
    }
    session.segments = segments;
    session.turns = turns;
    ensure_speakers(session);
    if mic_on {
        session.message = String::from_str(
            "Party on the desktop audio, you on the microphone. Words appear a few seconds later.",
        );
    } else {
        session.message = String::from_str(
            "Party on the desktop audio. Microphone is off. Words appear a few seconds later.",
        );
    }
    true
}

/// Records a failed job: the status becomes "error" and the note is the
/// first line of the engine's message.
pub fn apply_failure(session: &mut Session, message: &str)
    ensures
        final(session).status@ == "error"@,
        final(session).message@ == short_line_spec(message@),
        same_recording(*final(session), *old(session)),
        final(session).segments == old(session).segments,
        final(session).turns == old(session).turns,
        final(session).speakers == old(session).speakers,
{
    session.status = String::from_str("error");
    session.message = short_line(message);
}

/// Records a progress report: the note becomes its first line.
pub fn apply_status(session: &mut Session, message: &str)
    ensures
        final(session).message@ == short_line_spec(message@),
        final(session).status == old(session).status,
        same_recording(*final(session), *old(session)),
        final(session).segments == old(session).segments,
        final(session).turns == old(session).turns,
        final(session).speakers == old(session).speakers,
{
    session.message = short_line(message);
}

/// The kinds of line the speech engine writes, by their `event` field.
#[derive(Clone, Copy, Debug, PartialEq, Eq, Structural)]
pub enum EngineEvent {
    Ready,
    Status,
    Result,
    Live,
    Error,
    Other,
}

pub open spec fn engine_event_spec(name: Seq<char>) -> EngineEvent {
    if name == "ready"@ {
        EngineEvent::Ready
    } else if name == "status"@ {
        EngineEvent::Status
    } else if name == "result"@ {
        EngineEvent::Result
    } else if name == "live"@ {
        EngineEvent::Live
    } else if name == "error"@ {
        EngineEvent::Error
    } else {
        EngineEvent::Other
    }
}

/// The kind of an engine line with `event` field `name`; lines of any
/// other kind are ignored.
pub fn engine_event(name: &str) -> (r: EngineEvent)
    ensures
        r == engine_event_spec(name@),
{
    if str_eq(name, "ready") {
        EngineEvent::Ready
    } else if str_eq(name, "status") {
        EngineEvent::Status
    } else if str_eq(name, "result") {
        EngineEvent::Result
    } else if str_eq(name, "live") {
        EngineEvent::Live
    } else if str_eq(name, "error") {
        EngineEvent::Error
    } else {
        EngineEvent::Other
    }
}

/// What an engine error says: its message, or a general note where it sent
/// none.
pub fn failure_text(message: &str) -> (r: String)
    ensures
        r@ == if message@.len() == 0 {
            "The speech engine hit an error."@
        } else {
            message@
        },
{
    if message.unicode_len() == 0 {
        String::from_str("The speech engine hit an error.")
    } else {
        String::from_str(message)
    }
}

} // verus!
