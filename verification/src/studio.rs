//! Decisions of the studio window that do not depend on the screen: which
//! range to re-analyse, which links and files to accept, and what to call
//! an exported file or the chosen output device.
use vstd::prelude::*;

use crate::chars::{chars_of, push_char, push_range, starts_at, str_eq, trim, trim_range};
use crate::session::{same_recording, Session};
use crate::text::{is_video_ext, video_ext};

verus! {

/// Microseconds of slack at either end within which a selection counts as
/// the whole recording (0.05 s).
pub const EDGE_SLACK: u64 = 50_000;

/// What to ask the speech engine to analyse.
pub struct DiarizeRequest {
    /// Whether the whole recording is analysed.
    pub full: bool,
    /// Start of the range, when only part is analysed.
    pub start: Option<u64>,
    /// End of the range, when only part is analysed.
    pub end: Option<u64>,
    /// The note shown while it runs.
    pub message: String,
}

/// The request for the selection `[sel_start, sel_end]` of a recording of
/// `duration` microseconds. A selection that reaches within 0.05 s of both
/// ends is the whole recording; an end before the start is moved to it.
pub fn diarize_request(sel_start: u64, sel_end: u64, duration: u64) -> (r: DiarizeRequest)
    ensures
        ({
            let end = if sel_end < sel_start {
                sel_start
            } else {
                sel_end
            };
            let full = sel_start <= EDGE_SLACK && end + EDGE_SLACK >= duration;
            &&& r.full == full
            &&& r.start == if full {
                None
            } else {
                Some(sel_start)
            }
            &&& r.end == if full {
                None
            } else {
                Some(end)
            }
            &&& r.message@ == if full {
                "Diarizing with Nemotron 3"@
            } else {
                "Diarizing the selection"@
            }
        }),
{
    let end = if sel_end < sel_start {
        sel_start
    } else {
        sel_end
    };
    let full = sel_start <= EDGE_SLACK && (end >= duration || duration - end <= EDGE_SLACK);
    if full {
        DiarizeRequest {
            full,
            start: None,
            end: None,
            message: String::from_str("Diarizing with Nemotron 3"),
        }
    } else {
        DiarizeRequest {
            full,
            start: Some(sel_start),
            end: Some(end),
            message: String::from_str("Diarizing the selection"),
        }
    }
}

/// Bytes in the UTF-8 form of one character.
pub open spec fn utf8_width(c: char) -> nat {
    let u = c as u32;
    if u < 0x80 {
        1
    } else if u < 0x800 {
        2
    } else if u < 0x10000 {
        3
    } else {
        4
    }
}

/// Bytes in the UTF-8 form of a string.
pub open spec fn utf8_len(s: Seq<char>) -> nat
    decreases s.len(),
{
    if s.len() == 0 {
        0
    } else {
        utf8_len(s.drop_last()) + utf8_width(s.last())
    }
}

/// The link that `accepted_link` takes: a trimmed `http://` or `https://`
/// address of at most 2000 bytes.
pub open spec fn link_spec(url: Seq<char>) -> Option<Seq<char>> {
    let t = trim(url);
    if (t.len() >= 8 && t.take(8) == "https://"@) || (t.len() >= 7 && t.take(7) == "http://"@) {
        if utf8_len(t) <= 2000 {
            Some(t)
        } else {
            None
        }
    } else {
        None
    }
}

/// The pasted text, trimmed, where it is a full `http` or `https` link of
/// at most 2000 bytes.
pub fn accepted_link(url: &str) -> (r: Option<String>)
    ensures
        match r {
            Some(s) => link_spec(url@) == Some(s@),
            None => link_spec(url@) is None,
        },
{
    let v = chars_of(url);
    let (lo, hi) = trim_range(&v, 0, v.len());
    assert(v@.subrange(0, v@.len() as int) =~= url@);
    let ghost t = v@.subrange(lo as int, hi as int);
    let https = chars_of("https://");
    let http = chars_of("http://");
    proof {
        reveal_strlit("https://");
        reveal_strlit("http://");
    }
    let a = starts_at(&v, lo, &https) && lo + 8 <= hi;
    let b = starts_at(&v, lo, &http) && lo + 7 <= hi;
    proof {
        if t.len() >= 8 {
            assert(t.take(8) =~= v@.subrange(lo as int, lo + 8));
        }
        if t.len() >= 7 {
            assert(t.take(7) =~= v@.subrange(lo as int, lo + 7));
        }
    }
    if !a && !b {
        return None;
    }
    assert(link_spec(url@) == if utf8_len(t) <= 2000 {
        Some(t)
    } else {
        None::<Seq<char>>
    });
    let mut bytes: u64 = 0;
    let mut i = lo;
    while i < hi
        invariant
            lo <= i <= hi <= v.len(),
            t == v@.subrange(lo as int, hi as int),
            link_spec(url@) == if utf8_len(t) <= 2000 {
                Some(t)
            } else {
                None::<Seq<char>>
            },
            bytes <= 2000,
            bytes as nat == utf8_len(v@.subrange(lo as int, i as int)),
        decreases hi - i,
    {
        let u = v[i] as u32;
        let w: u64 = if u < 0x80 {
            1
        } else if u < 0x800 {
            2
        } else if u < 0x10000 {
            3
        } else {
            4
        };
        assert(v@.subrange(lo as int, i + 1).drop_last() =~= v@.subrange(lo as int, i as int));
        assert(v@.subrange(lo as int, i + 1).last() == v@[i as int]);
        assert(utf8_width(v@[i as int]) == w);
        assert(utf8_len(v@.subrange(lo as int, i + 1)) == bytes + w);
        if bytes + w > 2000 {
            proof {
                lemma_utf8_len_prefix(t, i + 1 - lo);
                assert(t.take(i + 1 - lo) =~= v@.subrange(lo as int, i + 1));
            }
            return None;
        }
        bytes = bytes + w;
        i = i + 1;
    }
    let mut s = String::new();
    push_range(&mut s, &v, lo, hi);
    assert(Seq::<char>::empty() + t =~= t);
    Some(s)
}

proof fn lemma_utf8_len_prefix(s: Seq<char>, n: int)
    requires
        0 <= n <= s.len(),
    ensures
        utf8_len(s.take(n)) <= utf8_len(s),
    decreases s.len() - n,
{
    if n < s.len() {
        lemma_utf8_len_prefix(s, n + 1);
        assert(s.take(n + 1).drop_last() =~= s.take(n));
    } else {
        assert(s.take(n) =~= s);
    }
}

/// Characters that Windows does not allow in a file name.
pub open spec fn is_forbidden_in_name(c: char) -> bool {
    c == '\\' || c == '/' || c == ':' || c == '*' || c == '?' || c == '"' || c == '<' || c == '>'
        || c == '|'
}

/// The characters of `s` that may stand in a file name.
pub open spec fn name_safe(s: Seq<char>) -> Seq<char>
    decreases s.len(),
{
    if s.len() == 0 {
        s
    } else if is_forbidden_in_name(s.last()) {
        name_safe(s.drop_last())
    } else {
        name_safe(s.drop_last()).push(s.last())
    }
}

/// The name offered when a transcript is saved: the title without the
/// characters a file name cannot hold, then a dot and `extension`.
pub fn export_file_name(title: &str, extension: &str) -> (r: String)
    ensures
        r@ == name_safe(title@) + "."@ + extension@,
{
    let v = chars_of(title);
    let mut out = String::new();
    let mut i: usize = 0;
    while i < v.len()
        invariant
            i <= v.len(),
            out@ == name_safe(v@.take(i as int)),
        decreases v.len() - i,
    {
        let c = v[i];
        assert(v@.take(i + 1).drop_last() =~= v@.take(i as int));
        if !(c == '\\' || c == '/' || c == ':' || c == '*' || c == '?' || c == '"' || c == '<' || c
            == '>' || c == '|') {
            push_char(&mut out, c);
        }
        i = i + 1;
    }
    assert(v@.take(v.len() as int) =~= title@);
    out.append(".");
    out.append(extension);
    out
}

/// Whether a downloaded file is the media itself: `source.<ext>` and not
/// its description or a part still being written.
pub open spec fn is_source_media(name: Seq<char>) -> bool {
    &&& name.len() >= 7 && name.take(7) == "source."@
    &&& !(name.len() >= 5 && name.skip(name.len() - 5) == ".json"@)
    &&& !(name.len() >= 5 && name.skip(name.len() - 5) == ".part"@)
    &&& !(name.len() >= 5 && name.skip(name.len() - 5) == ".ytdl"@)
}

fn ends_with(v: &Vec<char>, pat: &Vec<char>) -> (r: bool)
    ensures
        r == (v@.len() >= pat@.len() && v@.skip(v@.len() - pat@.len()) == pat@),
{
    if pat.len() > v.len() {
        return false;
    }
    let at = v.len() - pat.len();
    let r = starts_at(v, at, pat);
    assert(v@.subrange(at as int, at + pat.len()) =~= v@.skip(at as int));
    r
}

/// Whether a file in a download folder is the downloaded media.
pub fn is_source_file(name: &str) -> (r: bool)
    ensures
        r == is_source_media(name@),
{
    let v = chars_of(name);
    let prefix = chars_of("source.");
    let json = chars_of(".json");
    let part = chars_of(".part");
    let ytdl = chars_of(".ytdl");
    proof {
        reveal_strlit("source.");
        reveal_strlit(".json");
        reveal_strlit(".part");
        reveal_strlit(".ytdl");
    }
    let starts = starts_at(&v, 0, &prefix);
    proof {
        if v@.len() >= 7 {
            assert(v@.take(7) =~= v@.subrange(0, 7));
        }
    }
    starts && !ends_with(&v, &json) && !ends_with(&v, &part) && !ends_with(&v, &ytdl)
}

/// Whether a file in a download folder is left from an attempt: its name
/// starts with `source`.
pub fn is_download_leftover(name: &str) -> (r: bool)
    ensures
        r == (name@.len() >= 6 && name@.take(6) == "source"@),
{
    let v = chars_of(name);
    let prefix = chars_of("source");
    proof {
        reveal_strlit("source");
    }
    let r = starts_at(&v, 0, &prefix);
    proof {
        if v@.len() >= 6 {
            assert(v@.take(6) =~= v@.subrange(0, 6));
        }
    }
    r
}

/// Whether a file in a download folder describes the download: its name
/// ends with `info.json`.
pub fn is_info_file(name: &str) -> (r: bool)
    ensures
        r == (name@.len() >= 9 && name@.skip(name@.len() - 9) == "info.json"@),
{
    let v = chars_of(name);
    let suffix = chars_of("info.json");
    proof {
        reveal_strlit("info.json");
    }
    ends_with(&v, &suffix)
}

/// The name of the output device with id `id` among `(id, name)` pairs.
pub open spec fn device_name_spec(devices: Seq<(String, String)>, id: Seq<char>) -> Seq<char>
    decreases devices.len(),
{
    if devices.len() == 0 {
        "Windows default output"@
    } else if devices[0].0@ == id {
        devices[0].1@
    } else {
        device_name_spec(devices.drop_first(), id)
    }
}

/// The name of the chosen output device: the first with its id, or the
/// Windows default.
pub fn output_device_name(devices: &Vec<(String, String)>, id: &str) -> (r: String)
    ensures
        r@ == device_name_spec(devices@, id@),
{
    let mut i: usize = 0;
    assert(devices@.skip(0) =~= devices@);
    while i < devices.len()
        invariant
            i <= devices@.len(),
            device_name_spec(devices@, id@) == device_name_spec(devices@.skip(i as int), id@),
        decreases devices.len() - i,
    {
        assert(devices@.skip(i as int).drop_first() =~= devices@.skip(i + 1));
        if str_eq(devices[i].0.as_str(), id) {
            return devices[i].1.clone();
        }
        i = i + 1;
    }
    assert(devices@.skip(i as int) =~= Seq::<(String, String)>::empty());
    String::from_str("Windows default output")
}

/// How the speech engine's state is shown.
#[derive(Clone, Copy, Debug, PartialEq, Eq, Structural)]
pub enum EngineBadge {
    Ready,
    Failed,
    Loading,
}

pub open spec fn engine_badge_spec(state: Seq<char>) -> EngineBadge {
    if state == "ready"@ {
        EngineBadge::Ready
    } else if state == "error"@ || state == "missing"@ {
        EngineBadge::Failed
    } else {
        EngineBadge::Loading
    }
}

/// "ready" shows as ready, "error" and "missing" as failed, anything else
/// as still loading.
pub fn engine_badge(state: &str) -> (r: EngineBadge)
    ensures
        r == engine_badge_spec(state@),
{
    if str_eq(state, "ready") {
        EngineBadge::Ready
    } else if str_eq(state, "error") || str_eq(state, "missing") {
        EngineBadge::Failed
    } else {
        EngineBadge::Loading
    }
}

/// The note of a live session when capture starts: which output device
/// carries the party, and which microphone carries "Me" if it is on.
pub open spec fn live_start_note_spec(mic_enabled: bool, desktop: Seq<char>, mic: Seq<char>) -> Seq<char> {
    if mic_enabled {
        "Party \u{b7} "@ + desktop + ". You \u{b7} "@ + mic + ". Words appear a few seconds later."@
    } else {
        "Party \u{b7} "@ + desktop + ". Microphone is off. Words appear a few seconds later."@
    }
}

pub fn live_start_note(mic_enabled: bool, desktop: &str, mic: &str) -> (r: String)
    ensures
        r@ == live_start_note_spec(mic_enabled, desktop@, mic@),
{
    let mut s = String::from_str("Party \u{b7} ");
    s.append(desktop);
    if mic_enabled {
        s.append(". You \u{b7} ");
        s.append(mic);
        s.append(". Words appear a few seconds later.");
    } else {
        s.append(". Microphone is off. Words appear a few seconds later.");
    }
    s
}

/// Notes on a live session that the microphone was turned off; other
/// sessions are left alone.
pub fn note_mic_off(session: &mut Session)
    ensures
        old(session).status@ == "live"@ ==> final(session).message@
            == "Me is off. Earlier microphone audio stays on the session clock."@,
        old(session).status@ != "live"@ ==> final(session).message == old(session).message,
        final(session).status == old(session).status,
        same_recording(*final(session), *old(session)),
        final(session).segments == old(session).segments,
        final(session).turns == old(session).turns,
        final(session).speakers == old(session).speakers,
{
    if str_eq(session.status.as_str(), "live") {
        session.message = String::from_str(
            "Me is off. Earlier microphone audio stays on the session clock.",
        );
    }
}

/// Sets what a session is doing and the note shown for it; its recording
/// and its analysis stay as they are.
fn set_progress(session: &mut Session, status: &str, message: &str)
    ensures
        final(session).status@ == status@,
        final(session).message@ == message@,
        same_recording(*final(session), *old(session)),
        final(session).segments == old(session).segments,
        final(session).turns == old(session).turns,
        final(session).speakers == old(session).speakers,
{
    session.status = String::from_str(status);
    session.message = String::from_str(message);
}

/// A file is being read in: the session is "working" on "Reading audio".
pub fn begin_import(session: &mut Session)
    ensures
        final(session).status@ == "working"@,
        final(session).message@ == "Reading audio"@,
        same_recording(*final(session), *old(session)),
        final(session).segments == old(session).segments,
        final(session).turns == old(session).turns,
        final(session).speakers == old(session).speakers,
{
    set_progress(session, "working", "Reading audio");
}

/// A link is being downloaded: the session is "downloading".
pub fn begin_download(session: &mut Session)
    ensures
        final(session).status@ == "downloading"@,
        final(session).message@ == "Downloading"@,
        same_recording(*final(session), *old(session)),
        final(session).segments == old(session).segments,
        final(session).turns == old(session).turns,
        final(session).speakers == old(session).speakers,
{
    set_progress(session, "downloading", "Downloading");
}

/// The note shown while a whole recording is analysed.
pub open spec fn full_analysis_note() -> Seq<char> {
    "Diarizing with Nemotron 3"@
}

/// The speech engine is asked to analyse the session: it is "working",
/// with `message` as its note (the note of the whole recording where
/// `message` is none).
pub fn begin_diarizing(session: &mut Session, message: Option<&str>)
    ensures
        final(session).status@ == "working"@,
        final(session).message@ == match message {
            Some(m) => m@,
            None => full_analysis_note(),
        },
        same_recording(*final(session), *old(session)),
        final(session).segments == old(session).segments,
        final(session).turns == old(session).turns,
        final(session).speakers == old(session).speakers,
{
    match message {
        Some(m) => set_progress(session, "working", m),
        None => {
            set_progress(session, "working", "Diarizing with Nemotron 3");
            proof {
                reveal_strlit("Diarizing with Nemotron 3");
            }
        },
    }
}

/// An imported file is ready to be analysed: the session is "working" and
/// keeps its note.
pub fn mark_working(session: &mut Session)
    ensures
        final(session).status@ == "working"@,
        final(session).message == old(session).message,
        same_recording(*final(session), *old(session)),
        final(session).segments == old(session).segments,
        final(session).turns == old(session).turns,
        final(session).speakers == old(session).speakers,
{
    session.status = String::from_str("working");
}

/// A live recording has stopped: its length is the mixed track's, where
/// that could be read, and the speech engine now separates the speaker
/// from the party, so the session is "working".
pub fn end_live(session: &mut Session, duration: Option<u64>)
    ensures
        final(session).status@ == "working"@,
        final(session).message@ == "Separating you from the party"@,
        final(session).duration == match duration {
            Some(d) => d,
            None => old(session).duration,
        },
        final(session).id == old(session).id,
        final(session).title == old(session).title,
        final(session).created_at == old(session).created_at,
        final(session).kind == old(session).kind,
        final(session).visual == old(session).visual,
        final(session).media_file == old(session).media_file,
        final(session).max_speakers == old(session).max_speakers,
        final(session).segments == old(session).segments,
        final(session).turns == old(session).turns,
        final(session).speakers == old(session).speakers,
{
    if let Some(d) = duration {
        session.duration = d;
    }
    set_progress(session, "working", "Separating you from the party");
}

/// Fills in what an import learned: the stored media file, whether it has
/// a picture (from its extension), and its length in microseconds.
pub fn finish_import(session: &mut Session, media_file: &str, ext: &str, duration: u64)
    ensures
        final(session).media_file@ == media_file@,
        final(session).visual@ == if is_video_ext(ext@) {
            "video"@
        } else {
            "audio"@
        },
        final(session).duration == duration,
        final(session).id == old(session).id,
        final(session).title == old(session).title,
        final(session).created_at == old(session).created_at,
        final(session).kind == old(session).kind,
        final(session).status == old(session).status,
        final(session).message == old(session).message,
        final(session).segments == old(session).segments,
        final(session).turns == old(session).turns,
        final(session).speakers == old(session).speakers,
        final(session).max_speakers == old(session).max_speakers,
{
    session.media_file = String::from_str(media_file);
    session.visual = if video_ext(ext) {
        String::from_str("video")
    } else {
        String::from_str("audio")
    };
    session.duration = duration;
}

/// The sessions with an id other than `id`, in order.
pub open spec fn without_session(sessions: Seq<Session>, id: Seq<char>) -> Seq<Session> {
    sessions.filter(|s: Session| s.id@ != id)
}

/// Deletes the session `id` from the list, unless it is being recorded
/// (`capturing`). Returns whether it was deleted.
pub fn delete_session(sessions: &mut Vec<Session>, id: &str, capturing: Option<&str>) -> (deleted: bool)
    ensures
        deleted == !(capturing matches Some(c) && c@ == id@),
        deleted ==> final(sessions)@ == without_session(old(sessions)@, id@),
        !deleted ==> final(sessions)@ == old(sessions)@,
{
    if let Some(c) = capturing {
        if str_eq(c, id) {
            return false;
        }
    }
    let ghost all = sessions@;
    let mut i: usize = 0;
    let ghost mut j: int = 0;
    while i < sessions.len()
        invariant
            0 <= i <= sessions@.len(),
            0 <= j <= all.len(),
            sessions@.len() - i == all.len() - j,
            sessions@.take(i as int) == without_session(all.take(j), id@),
            sessions@.skip(i as int) == all.skip(j),
        decreases sessions.len() - i,
    {
        let ghost before = sessions@;
        assert(all[j] == before[i as int]) by {
            assert(before.skip(i as int)[0] == all.skip(j)[0]);
        }
        proof {
            reveal(Seq::filter);
            assert(all.take(j + 1).drop_last() =~= all.take(j));
            assert(all.take(j + 1).last() == all[j]);
        }
        if str_eq(sessions[i].id.as_str(), id) {
            sessions.remove(i);
            assert(sessions@.take(i as int) =~= before.take(i as int));
            assert forall|k: int| 0 <= k < sessions@.len() - i implies #[trigger] sessions@.skip(
                i as int,
            )[k] == all.skip(j + 1)[k] by {
                assert(before.skip(i as int)[k + 1] == all.skip(j)[k + 1]);
            }
            assert(sessions@.skip(i as int) =~= all.skip(j + 1));
        } else {
            assert(sessions@.take(i + 1) =~= before.take(i as int).push(before[i as int]));
            assert forall|k: int| 0 <= k < sessions@.len() - i - 1 implies #[trigger] sessions@.skip(
                i + 1,
            )[k] == all.skip(j + 1)[k] by {
                assert(before.skip(i as int)[k + 1] == all.skip(j)[k + 1]);
            }
            assert(sessions@.skip(i + 1) =~= all.skip(j + 1));
            i = i + 1;
        }
        proof {
            j = j + 1;
        }
    }
    assert(all.skip(j) =~= Seq::<Session>::empty() ==> j == all.len());
    assert(sessions@.take(i as int) =~= sessions@);
    assert(all.take(j) =~= all);
    true
}

} // verus!
