//! Sessions: what a recording holds (who spoke when and what was said),
//! how one is created, and how engine results and failures change it.
use vstd::prelude::*;

use crate::chars::{chars_of, push_char};
use crate::outside::{
    hex_digit, hyphens_before, is_lower_hex, last_four_digit_second, rfc3339_utc_text, is_utc_timestamp, is_v4_uuid_text, random_bytes,
    since_unix_epoch, system_time_now, utc_rfc3339_at, uuid_v4_text, v4_byte, v4_uuid_text,
    whole_seconds,
};
use crate::speakers::{default_name, default_speaker_name, SpeakerInfo, Speakers};
use crate::text::{clean_title, clean_title_spec};

verus! {

/// A stretch of time in which one speaker is active. Times are in
/// microseconds from the start of the recording.
#[derive(Clone, Copy, Debug, PartialEq, Eq, Structural)]
pub struct Segment {
    pub speaker: u8,
    pub start: u64,
    pub end: u64,
}

/// A transcript line: its speaker, its time span in microseconds, and the
/// words.
#[derive(Clone, Debug)]
pub struct Turn {
    pub speaker: u8,
    pub start: u64,
    pub end: u64,
    pub text: String,
}

/// A copy of a transcript line.
pub fn copy_turn(t: &Turn) -> (r: Turn)
    ensures
        r == *t,
{
    Turn { speaker: t.speaker, start: t.start, end: t.end, text: t.text.clone() }
}

/// A recording and its analysis. `duration` is in microseconds.
pub struct Session {
    pub id: String,
    pub title: String,
    pub created_at: String,
    pub status: String,
    pub kind: String,
    pub visual: String,
    pub media_file: String,
    pub duration: u64,
    pub segments: Vec<Segment>,
    pub turns: Vec<Turn>,
    pub speakers: Speakers,
    pub max_speakers: u8,
    pub message: String,
}

/// The characters of `s` other than hyphens, in order.
pub open spec fn without_hyphens(s: Seq<char>) -> Seq<char>
    decreases s.len(),
{
    if s.len() == 0 {
        s
    } else if s.last() == '-' {
        without_hyphens(s.drop_last())
    } else {
        without_hyphens(s.drop_last()).push(s.last())
    }
}

/// The session id made from a UUID's text: its first twelve characters
/// once the hyphens are gone.
pub open spec fn id_of_uuid_text(s: Seq<char>) -> Seq<char> {
    let d = without_hyphens(s);
    if d.len() <= 12 {
        d
    } else {
        d.take(12)
    }
}

/// Drops the hyphens of a UUID's text and keeps the first twelve characters.
pub fn id_from_uuid_text(text: &str) -> (r: String)
    ensures
        r@ == id_of_uuid_text(text@),
{
    let v = chars_of(text);
    let mut d: Vec<char> = Vec::new();
    let mut i: usize = 0;
    while i < v.len()
        invariant
            i <= v.len(),
            d@ == without_hyphens(v@.take(i as int)),
        decreases v.len() - i,
    {
        assert(v@.take(i + 1).drop_last() =~= v@.take(i as int));
        if v[i] != '-' {
            d.push(v[i]);
        }
        i = i + 1;
    }
    assert(v@.take(v.len() as int) =~= v@);
    let mut out = String::new();
    let mut k: usize = 0;
    while k < d.len() && k < 12
        invariant
            k <= d.len(),
            k <= 12,
            out@ == d@.take(k as int),
        decreases d.len() - k,
    {
        push_char(&mut out, d[k]);
        assert(d@.take(k + 1) =~= d@.take(k as int).push(d@[k as int]));
        k = k + 1;
    }
    assert(d@.len() <= 12 ==> d@.take(k as int) =~= d@);
    out
}

proof fn lemma_without_hyphens_hex(s: Seq<char>, n: int)
    requires
        0 <= n <= s.len(),
        forall|i: int| 0 <= i < n ==> s[i] == '-' || is_lower_hex(#[trigger] s[i]),
    ensures
        forall|i: int|
            0 <= i < without_hyphens(s.take(n)).len() ==> is_lower_hex(
                #[trigger] without_hyphens(s.take(n))[i],
            ),
    decreases n,
{
    if n > 0 {
        lemma_without_hyphens_hex(s, n - 1);
        assert(s.take(n).drop_last() =~= s.take(n - 1));
        assert(s.take(n).last() == s[n - 1]);
        let w = without_hyphens(s.take(n - 1));
        if s[n - 1] != '-' {
            assert(without_hyphens(s.take(n)) == w.push(s[n - 1]));
            assert forall|i: int| 0 <= i < w.len() + 1 implies is_lower_hex(
                #[trigger] w.push(s[n - 1])[i],
            ) by {
                if i < w.len() {
                    assert(w.push(s[n - 1])[i] == w[i]);
                }
            }
        }
    }
}

proof fn lemma_without_hyphens_len(s: Seq<char>, n: int)
    requires
        0 <= n <= s.len(),
        forall|i: int|
            0 <= i < n && #[trigger] s[i] == '-' ==> i == 8 || i == 13 || i == 18 || i == 23,
    ensures
        without_hyphens(s.take(n)).len() >= n - hyphens_before(n),
    decreases n,
{
    if n > 0 {
        lemma_without_hyphens_len(s, n - 1);
        assert(s.take(n).drop_last() =~= s.take(n - 1));
        assert(s.take(n).last() == s[n - 1]);
    }
}

/// Whether `s` is a session id: twelve lower-case hex digits.
pub open spec fn is_session_id(s: Seq<char>) -> bool {
    s.len() == 12 && forall|i: int| 0 <= i < 12 ==> is_lower_hex(#[trigger] s[i])
}

proof fn lemma_hex_digit(v: int)
    requires
        0 <= v < 16,
    ensures
        is_lower_hex(hex_digit(v)),
        v == 4 ==> hex_digit(v) == '4',
{
}

/// The text of a version-4 UUID built from any sixteen bytes has the
/// hyphenated version-4 shape.
proof fn lemma_v4_text_shape(b: Seq<u8>)
    requires
        b.len() == 16,
    ensures
        is_v4_uuid_text(v4_uuid_text(b)),
{
    let s = v4_uuid_text(b);
    assert forall|i: int| 0 <= i < 36 implies if i == 8 || i == 13 || i == 18 || i == 23 {
        #[trigger] s[i] == '-'
    } else {
        is_lower_hex(s[i])
    } by {
        if !(i == 8 || i == 13 || i == 18 || i == 23) {
            let d = i - hyphens_before(i);
            assert(0 <= d < 32);
            let x = v4_byte(b, d / 2);
            assert(0 <= x < 256);
            lemma_hex_digit(x / 16);
            lemma_hex_digit(x % 16);
        }
    }
    let x6 = v4_byte(b, 6);
    assert(64 <= x6 < 80);
    assert(x6 / 16 == 4);
    lemma_hex_digit(4);
}

/// The session id of the version-4 UUID built from `bytes`: twelve
/// lower-case hex digits.
pub fn id_from_bytes(bytes: [u8; 16]) -> (r: String)
    ensures
        r@ == id_of_uuid_text(v4_uuid_text(bytes@)),
        is_session_id(r@),
{
    let text = uuid_v4_text(bytes);
    let id = id_from_uuid_text(text.as_str());
    proof {
        let s = text@;
        lemma_v4_text_shape(bytes@);
        assert forall|i: int| 0 <= i < 36 implies s[i] == '-' || is_lower_hex(#[trigger] s[i]) by {
            if i == 8 || i == 13 || i == 18 || i == 23 {
            } else {
            }
        }
        lemma_without_hyphens_hex(s, 36);
        assert(s.take(36) =~= s);
        lemma_without_hyphens_len(s, 36);
    }
    id
}

/// Whether `id` is the session id of the version-4 UUID built from some
/// sixteen bytes.
pub open spec fn is_drawn_id(id: Seq<char>) -> bool {
    exists|b: Seq<u8>| b.len() == 16 && id == id_of_uuid_text(#[trigger] v4_uuid_text(b))
}

/// A new random session id: twelve lower-case hex digits taken from a
/// version-4 UUID made from the system's random bytes, or none where the
/// system has no random bytes to give.
pub fn new_id() -> (r: Option<String>)
    ensures
        r matches Some(id) ==> is_session_id(id@) && is_drawn_id(id@),
{
    let bytes = match random_bytes() {
        Some(b) => b,
        None => {
            return None;
        },
    };
    let id = id_from_bytes(bytes);
    proof {
        assert(bytes@.len() == 16);
        assert(id@ == id_of_uuid_text(v4_uuid_text(bytes@)));
    }
    Some(id)
}

/// The UTC time `secs` seconds after the start of 1970, to the second, as
/// RFC 3339 text; none where the time library cannot represent it, which
/// is never before the end of year 9999.
pub fn utc_text_at(secs: u64) -> (r: Option<String>)
    ensures
        secs <= last_four_digit_second() ==> (r matches Some(t) && t@ == rfc3339_utc_text(
            secs as i64,
        )),
        r matches Some(t) ==> t@ == rfc3339_utc_text(secs as i64) && is_utc_timestamp(t@),
        secs > i64::MAX ==> r is None,
{
    if secs > 9_223_372_036_854_775_807u64 {
        None
    } else {
        utc_rfc3339_at(secs as i64)
    }
}

/// Whether `t` is the RFC 3339 text of some second from 1970 on.
pub open spec fn is_clock_text(t: Seq<char>) -> bool {
    exists|secs: i64| secs >= 0 && t == #[trigger] rfc3339_utc_text(secs)
}

/// The current UTC time to the second as RFC 3339 text, or none where the
/// system clock reads earlier than 1970 or later than the time library
/// can represent.
pub fn utc_now_text() -> (r: Option<String>)
    ensures
        r matches Some(t) ==> is_utc_timestamp(t@) && is_clock_text(t@),
{
    let now = system_time_now();
    match since_unix_epoch(&now) {
        None => None,
        Some(d) => {
            let secs = whole_seconds(&d);
            let r = utc_text_at(secs);
            proof {
                if r is Some {
                    assert(secs <= i64::MAX);
                    let s = secs as i64;
                    assert(s >= 0);
                    assert(r->0@ == rfc3339_utc_text(s));
                }
            }
            r
        },
    }
}

/// The fields that describe a recording rather than its analysis agree.
pub open spec fn same_recording(a: Session, b: Session) -> bool {
    &&& a.id == b.id
    &&& a.title == b.title
    &&& a.created_at == b.created_at
    &&& a.kind == b.kind
    &&& a.visual == b.visual
    &&& a.media_file == b.media_file
    &&& a.duration == b.duration
    &&& a.max_speakers == b.max_speakers
}

impl Session {
    /// A fresh session with the given id and creation time, a cleaned
    /// title, status "ready", an audio visual, no media yet, and eight
    /// speakers shown.
    pub fn with_identity(id: String, created_at: String, title: &str, kind: &str) -> (s: Session)
        ensures
            s.id == id,
            s.created_at == created_at,
            s.title@ == clean_title_spec(title@),
            s.status@ == "ready"@,
            s.kind@ == kind@,
            s.visual@ == "audio"@,
            s.media_file@.len() == 0,
            s.duration == 0,
            s.segments@.len() == 0,
            s.turns@.len() == 0,
            s.speakers@ == Map::<u8, Seq<char>>::empty(),
            s.max_speakers == 8,
            s.message@.len() == 0,
    {
        Session {
            id,
            title: clean_title(title),
            created_at,
            status: String::from_str("ready"),
            kind: String::from_str(kind),
            visual: String::from_str("audio"),
            media_file: String::new(),
            duration: 0,
            segments: Vec::new(),
            turns: Vec::new(),
            speakers: Speakers::new(),
            max_speakers: 8,
            message: String::new(),
        }
    }

    /// A fresh session with a random id, the current UTC time to the
    /// second as RFC 3339 text, a cleaned title, status "ready", an audio
    /// visual, no media yet, and eight speakers shown; or none where the
    /// system has no random bytes for the id or its clock cannot be read
    /// as a time from 1970 on.
    pub fn new(title: &str, kind: &str) -> (r: Option<Session>)
        ensures
            r matches Some(s) ==> {
                &&& is_session_id(s.id@)
                &&& is_drawn_id(s.id@)
                &&& is_utc_timestamp(s.created_at@)
                &&& is_clock_text(s.created_at@)
                &&& s.title@ == clean_title_spec(title@)
                &&& s.status@ == "ready"@
                &&& s.kind@ == kind@
                &&& s.visual@ == "audio"@
                &&& s.media_file@.len() == 0
                &&& s.duration == 0
                &&& s.segments@.len() == 0
                &&& s.turns@.len() == 0
                &&& s.speakers@ == Map::<u8, Seq<char>>::empty()
                &&& s.max_speakers == 8
                &&& s.message@.len() == 0
            },
    {
        let id = match new_id() {
            Some(id) => id,
            None => {
                return None;
            },
        };
        let created_at = match utc_now_text() {
            Some(t) => t,
            None => {
                return None;
            },
        };
        Some(Session::with_identity(id, created_at, title, kind))
    }
}

/// Whether `speaker` has a segment or a transcript line.
pub open spec fn appears(segments: Seq<Segment>, turns: Seq<Turn>, speaker: u8) -> bool {
    (exists|i: int| 0 <= i < segments.len() && #[trigger] segments[i].speaker == speaker) || (
    exists|i: int| 0 <= i < turns.len() && #[trigger] turns[i].speaker == speaker)
}

/// The names once every speaker that appears has one: given names stay,
/// the others get their default name.
pub open spec fn with_default_names(
    names: Map<u8, Seq<char>>,
    segments: Seq<Segment>,
    turns: Seq<Turn>,
) -> Map<u8, Seq<char>> {
    Map::new(
        |k: u8| names.contains_key(k) || appears(segments, turns, k),
        |k: u8|
            if names.contains_key(k) {
                names[k]
            } else {
                default_name(k)
            },
    )
}

/// Gives every speaker of `segments` and `turns` that has no name its
/// default name.
pub fn add_default_names(speakers: &mut Speakers, segments: &Vec<Segment>, turns: &Vec<Turn>)
    ensures
        final(speakers)@ == with_default_names(old(speakers)@, segments@, turns@),
{
    let ghost start = speakers@;
    let mut i: usize = 0;
    while i < segments.len()
        invariant
            i <= segments@.len(),
            speakers@ == with_default_names(start, segments@.take(i as int), Seq::<Turn>::empty()),
        decreases segments.len() - i,
    {
        let k = segments[i].speaker;
        if !speakers.contains(k) {
            speakers.insert(k, SpeakerInfo { name: default_speaker_name(k) });
        }
        proof {
            let before = segments@.take(i as int);
            let after = segments@.take(i + 1);
            assert forall|x: u8| appears(after, Seq::<Turn>::empty(), x) <==> appears(before, Seq::<Turn>::empty(), x) || x == k by {
                if appears(after, Seq::<Turn>::empty(), x) {
                    let j = choose|j: int| 0 <= j < after.len() && #[trigger] after[j].speaker == x;
                    if j < i {
                        assert(before[j] == after[j]);
                    }
                }
                if appears(before, Seq::<Turn>::empty(), x) {
                    let j = choose|j: int| 0 <= j < before.len() && #[trigger] before[j].speaker == x;
                    assert(after[j] == before[j]);
                }
                if x == k {
                    assert(after[i as int].speaker == x);
                }
            }
            assert(speakers@ =~= with_default_names(start, after, Seq::<Turn>::empty()));
        }
        i = i + 1;
    }
    assert(segments@.take(segments@.len() as int) =~= segments@);
    let mut j: usize = 0;
    while j < turns.len()
        invariant
            j <= turns@.len(),
            speakers@ == with_default_names(start, segments@, turns@.take(j as int)),
        decreases turns.len() - j,
    {
        let k = turns[j].speaker;
        if !speakers.contains(k) {
            speakers.insert(k, SpeakerInfo { name: default_speaker_name(k) });
        }
        proof {
            let before = turns@.take(j as int);
            let after = turns@.take(j + 1);
            assert forall|x: u8| appears(segments@, after, x) <==> appears(segments@, before, x) || x == k by {
                if exists|m: int| 0 <= m < after.len() && #[trigger] after[m].speaker == x {
                    let m = choose|m: int| 0 <= m < after.len() && #[trigger] after[m].speaker == x;
                    if m < j {
                        assert(before[m] == after[m]);
                    }
                }
                if exists|m: int| 0 <= m < before.len() && #[trigger] before[m].speaker == x {
                    let m = choose|m: int| 0 <= m < before.len() && #[trigger] before[m].speaker == x;
                    assert(after[m] == before[m]);
                }
                if x == k {
                    assert(after[j as int].speaker == x);
                }
            }
            assert(speakers@ =~= with_default_names(start, segments@, after));
        }
        j = j + 1;
    }
    assert(turns@.take(turns@.len() as int) =~= turns@);
}

/// Gives every speaker with a segment or a transcript line a name: names
/// already given stay, the others get their default name. Nothing else
/// changes.
pub fn ensure_speakers(session: &mut Session)
    ensures
        final(session).speakers@ == with_default_names(
            old(session).speakers@,
            old(session).segments@,
            old(session).turns@,
        ),
        same_recording(*final(session), *old(session)),
        final(session).segments == old(session).segments,
        final(session).turns == old(session).turns,
        final(session).status == old(session).status,
        final(session).message == old(session).message,
{
    add_default_names(&mut session.speakers, &session.segments, &session.turns);
}

/// Statuses of work that was under way when the app last stopped.
pub open spec fn is_interrupted_status(status: Seq<char>) -> bool {
    status == "live"@ || status == "working"@ || status == "downloading"@
}

/// Marks a session whose capture, analysis or download was cut short as
/// ready again, with a note saying so. Returns whether it changed it.
pub fn recover_interrupted(session: &mut Session) -> (changed: bool)
    ensures
        changed == is_interrupted_status(old(session).status@),
        changed ==> final(session).status@ == "ready"@ && final(session).message@
            == "This was interrupted. Diarize it again when you want."@,
        !changed ==> final(session).status == old(session).status && final(session).message == old(
            session,
        ).message,
        same_recording(*final(session), *old(session)),
        final(session).segments == old(session).segments,
        final(session).turns == old(session).turns,
        final(session).speakers == old(session).speakers,
{
    let s = session.status.as_str();
    let interrupted = crate::chars::str_eq(s, "live") || crate::chars::str_eq(s, "working")
        || crate::chars::str_eq(s, "downloading");
    if interrupted {
        session.status = String::from_str("ready");
        session.message = String::from_str("This was interrupted. Diarize it again when you want.");
    }
    interrupted
}

/// Whether text `a` sorts before text `b`: compared character by character,
/// a proper prefix first.
pub open spec fn text_before(a: Seq<char>, b: Seq<char>) -> bool
    decreases a.len(),
{
    if a.len() == 0 {
        b.len() > 0
    } else if b.len() == 0 {
        false
    } else if a[0] != b[0] {
        (a[0] as u32) < (b[0] as u32)
    } else {
        text_before(a.skip(1), b.skip(1))
    }
}

/// Whether text `a` sorts before text `b`.
pub fn text_is_before(a: &str, b: &str) -> (r: bool)
    ensures
        r == text_before(a@, b@),
{
    let x = chars_of(a);
    let y = chars_of(b);
    let mut i: usize = 0;
    assert(x@.skip(0) =~= x@ && y@.skip(0) =~= y@);
    while i < x.len() && i < y.len()
        invariant
            i <= x@.len(),
            i <= y@.len(),
            x@ == a@,
            y@ == b@,
            text_before(x@, y@) == text_before(x@.skip(i as int), y@.skip(i as int)),
        decreases x.len() - i,
    {
        let c = x[i];
        let d = y[i];
        assert(x@.skip(i as int)[0] == c && y@.skip(i as int)[0] == d);
        if c != d {
            return (c as u32) < (d as u32);
        }
        assert(x@.skip(i as int).skip(1) =~= x@.skip(i + 1));
        assert(y@.skip(i as int).skip(1) =~= y@.skip(i + 1));
        i = i + 1;
    }
    i < y.len()
}

/// Where a session goes among sessions that are newest first: before the
/// first one created earlier than it, so ties keep their order.
pub open spec fn newest_slot(sorted: Seq<Session>, session: Session) -> int
    decreases sorted.len(),
{
    if sorted.len() == 0 {
        0
    } else if text_before(sorted[0].created_at@, session.created_at@) {
        0
    } else {
        1 + newest_slot(sorted.skip(1), session)
    }
}

/// The sessions newest first by creation time; sessions created at the same
/// time keep their order.
pub open spec fn newest_first(sessions: Seq<Session>) -> Seq<Session>
    decreases sessions.len(),
{
    if sessions.len() == 0 {
        sessions
    } else {
        let rest = newest_first(sessions.drop_last());
        rest.insert(newest_slot(rest, sessions.last()), sessions.last())
    }
}

proof fn lemma_newest_slot(sorted: Seq<Session>, session: Session, i: int)
    requires
        0 <= i <= sorted.len(),
        forall|j: int| 0 <= j < i ==> !text_before(#[trigger] sorted[j].created_at@, session.created_at@),
        i == sorted.len() || text_before(sorted[i].created_at@, session.created_at@),
    ensures
        newest_slot(sorted, session) == i,
    decreases i,
{
    if i > 0 {
        assert(!text_before(sorted[0].created_at@, session.created_at@));
        assert forall|j: int| 0 <= j < i - 1 implies !text_before(
            #[trigger] sorted.skip(1)[j].created_at@,
            session.created_at@,
        ) by {
            assert(sorted.skip(1)[j] == sorted[j + 1]);
        }
        lemma_newest_slot(sorted.skip(1), session, i - 1);
    }
}

proof fn lemma_text_before_asym(a: Seq<char>, b: Seq<char>)
    ensures
        text_before(a, b) ==> !text_before(b, a),
    decreases a.len(),
{
    if a.len() > 0 && b.len() > 0 && a[0] == b[0] {
        lemma_text_before_asym(a.skip(1), b.skip(1));
    }
}

proof fn lemma_text_before_trans(a: Seq<char>, b: Seq<char>, c: Seq<char>)
    ensures
        text_before(a, b) && text_before(b, c) ==> text_before(a, c),
    decreases a.len(),
{
    if a.len() > 0 && b.len() > 0 && c.len() > 0 && a[0] == b[0] && b[0] == c[0] {
        lemma_text_before_trans(a.skip(1), b.skip(1), c.skip(1));
    }
}

/// Whether no session in `s` comes before one created later.
pub open spec fn newest_in_order(s: Seq<Session>) -> bool {
    forall|i: int, j: int|
        0 <= i < j < s.len() ==> !text_before(#[trigger] s[i].created_at@, #[trigger] s[j].created_at@)
}

#[verifier::spinoff_prover]
proof fn lemma_newest_slot_bounds(sorted: Seq<Session>, session: Session)
    ensures
        0 <= newest_slot(sorted, session) <= sorted.len(),
        forall|j: int|
            0 <= j < newest_slot(sorted, session) ==> !text_before(
                #[trigger] sorted[j].created_at@,
                session.created_at@,
            ),
        newest_slot(sorted, session) < sorted.len() ==> text_before(
            sorted[newest_slot(sorted, session)].created_at@,
            session.created_at@,
        ),
    decreases sorted.len(),
{
    if sorted.len() > 0 && !text_before(sorted[0].created_at@, session.created_at@) {
        let rest = sorted.skip(1);
        lemma_newest_slot_bounds(rest, session);
        assert forall|j: int| 0 <= j < newest_slot(sorted, session) implies !text_before(
            #[trigger] sorted[j].created_at@,
            session.created_at@,
        ) by {
            assert(newest_slot(sorted, session) == 1 + newest_slot(rest, session));
            if j > 0 {
                assert(sorted[j] == rest[j - 1]);
                assert(0 <= j - 1 < newest_slot(rest, session));
                assert(!text_before(rest[j - 1].created_at@, session.created_at@));
            }
        }
        if newest_slot(sorted, session) < sorted.len() {
            assert(sorted[newest_slot(sorted, session)] == rest[newest_slot(rest, session)]);
        }
    }
}

#[verifier::spinoff_prover]
proof fn lemma_newest_first_ordered(sessions: Seq<Session>)
    ensures
        newest_in_order(newest_first(sessions)),
        newest_first(sessions).len() == sessions.len(),
    decreases sessions.len(),
{
    if sessions.len() > 0 {
        let rest = newest_first(sessions.drop_last());
        let x = sessions.last();
        lemma_newest_first_ordered(sessions.drop_last());
        lemma_newest_slot_bounds(rest, x);
        let p = newest_slot(rest, x);
        let r = rest.insert(p, x);
        assert forall|i: int, j: int| 0 <= i < j < r.len() implies !text_before(
            #[trigger] r[i].created_at@,
            #[trigger] r[j].created_at@,
        ) by {
            if j < p {
                assert(r[i] == rest[i] && r[j] == rest[j]);
            } else if j == p {
                assert(r[i] == rest[i] && r[j] == x);
            } else if i == p {
                assert(r[i] == x && r[j] == rest[j - 1]);
                assert(text_before(rest[p].created_at@, x.created_at@));
                if p < j - 1 {
                    assert(!text_before(rest[p].created_at@, rest[j - 1].created_at@));
                    lemma_text_before_trans(
                        rest[p].created_at@,
                        x.created_at@,
                        rest[j - 1].created_at@,
                    );
                } else {
                    lemma_text_before_asym(rest[p].created_at@, x.created_at@);
                }
            } else if i < p {
                assert(r[i] == rest[i] && r[j] == rest[j - 1]);
            } else {
                assert(r[i] == rest[i - 1] && r[j] == rest[j - 1]);
            }
        }
    }
}

proof fn lemma_newest_first_same_sessions(sessions: Seq<Session>)
    ensures
        newest_first(sessions).to_multiset() == sessions.to_multiset(),
    decreases sessions.len(),
{
    broadcast use vstd::seq_lib::group_to_multiset_ensures;

    if sessions.len() > 0 {
        let rest = newest_first(sessions.drop_last());
        let x = sessions.last();
        lemma_newest_first_same_sessions(sessions.drop_last());
        lemma_newest_slot_bounds(rest, x);
        let p = newest_slot(rest, x);
        assert(rest.insert(p, x) =~= rest.take(p) + seq![x] + rest.skip(p));
        assert(rest =~= rest.take(p) + rest.skip(p));
        vstd::seq_lib::lemma_multiset_commutative(rest.take(p), seq![x]);
        vstd::seq_lib::lemma_multiset_commutative(rest.take(p) + seq![x], rest.skip(p));
        vstd::seq_lib::lemma_multiset_commutative(rest.take(p), rest.skip(p));
        assert(sessions =~= sessions.drop_last().push(x));
    }
}

/// Puts the sessions newest first by creation time, as the session list
/// shows them; sessions created at the same time keep their order.
pub fn sort_newest_first(sessions: Vec<Session>) -> (r: Vec<Session>)
    ensures
        r@ == newest_first(sessions@),
        newest_in_order(r@),
        r@.to_multiset() == sessions@.to_multiset(),
{
    proof {
        lemma_newest_first_ordered(sessions@);
        lemma_newest_first_same_sessions(sessions@);
    }
    let mut input = sessions;
    let ghost src = input@;
    let ghost n = src.len();
    assert(n == input.len());
    let mut out: Vec<Session> = Vec::new();
    let mut k: usize = 0;
    assert(src.skip(0) =~= src);
    while input.len() > 0
        invariant
            input@ == src.skip(k as int),
            k <= n,
            n == src.len(),
            n <= usize::MAX,
            out@ == newest_first(src.take(k as int)),
        decreases input.len(),
    {
        let s = input.remove(0);
        proof {
            assert(src.skip(k as int)[0] == s);
            assert(input@ =~= src.skip(k + 1));
            assert(src.take(k + 1).drop_last() =~= src.take(k as int));
            assert(src.take(k + 1).last() == s);
        }
        let mut i: usize = 0;
        while i < out.len() && !text_is_before(out[i].created_at.as_str(), s.created_at.as_str())
            invariant
                i <= out@.len(),
                forall|j: int| 0 <= j < i ==> !text_before(#[trigger] out@[j].created_at@, s.created_at@),
            decreases out.len() - i,
        {
            i = i + 1;
        }
        proof {
            lemma_newest_slot(out@, s, i as int);
        }
        out.insert(i, s);
        k = k + 1;
    }
    assert(src.take(n as int) =~= src);
    out
}

/// The first position from `i` on of a session with id `id`.
pub open spec fn position_of(sessions: Seq<Session>, id: Seq<char>, i: int) -> Option<int>
    decreases sessions.len() - i,
{
    if i < 0 || i >= sessions.len() {
        None
    } else if sessions[i].id@ == id {
        Some(i)
    } else {
        position_of(sessions, id, i + 1)
    }
}

/// The list after storing `session`: it replaces the first session with its
/// id, or goes first where there is none.
pub open spec fn stored(sessions: Seq<Session>, session: Session) -> Seq<Session> {
    match position_of(sessions, session.id@, 0) {
        Some(i) => sessions.update(i, session),
        None => seq![session] + sessions,
    }
}

/// Stores `session` in the list: it replaces the session with the same id,
/// or is put first.
pub fn upsert_session(sessions: &mut Vec<Session>, session: Session)
    ensures
        final(sessions)@ == stored(old(sessions)@, session),
{
    let mut i: usize = 0;
    while i < sessions.len()
        invariant
            i <= sessions@.len(),
            sessions@ == old(sessions)@,
            position_of(sessions@, session.id@, 0) == position_of(sessions@, session.id@, i as int),
        decreases sessions.len() - i,
    {
        if sessions[i].id == session.id {
            sessions.set(i, session);
            return;
        }
        i = i + 1;
    }
    sessions.insert(0, session);
    assert(sessions@ =~= seq![session] + old(sessions)@);
}

/// The log after adding `line`: once it passes 300 lines, the oldest 50
/// go.
pub open spec fn logged(logs: Seq<String>, line: String) -> Seq<String> {
    let all = logs.push(line);
    if all.len() > 300 {
        all.skip(50)
    } else {
        all
    }
}

/// Adds a line to the log, dropping the oldest 50 when it grows past 300.
pub fn push_log(logs: &mut Vec<String>, line: String)
    ensures
        final(logs)@ == logged(old(logs)@, line),
{
    logs.push(line);
    if logs.len() > 300 {
        let rest = logs.split_off(50);
        *logs = rest;
    }
}

} // verus!
