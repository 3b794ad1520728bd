use speaker_studio::events::{
    apply_failure, apply_live, apply_result, apply_status, engine_event, failure_text, EngineEvent,
};
use speaker_studio::session::{
    ensure_speakers, id_from_bytes, id_from_uuid_text, new_id, utc_now_text, utc_text_at, push_log, recover_interrupted, sort_newest_first,
    text_is_before, upsert_session, Segment, Session, Turn,
};
use speaker_studio::speakers::{SpeakerInfo, Speakers};

fn seg(speaker: u8, start: u64, end: u64) -> Segment {
    Segment { speaker, start, end }
}

fn turn(speaker: u8, start: u64, end: u64, text: &str) -> Turn {
    Turn { speaker, start, end, text: text.to_string() }
}

fn is_id(s: &str) -> bool {
    s.len() == 12 && s.chars().all(|c| c.is_ascii_digit() || ('a'..='f').contains(&c))
}

#[test]
fn new_sessions_start_ready() {
    let s = Session::new("  Keep \n", "file").unwrap();
    assert!(is_id(&s.id));
    assert_eq!(s.title, "Keep");
    assert_eq!(s.status, "ready");
    assert_eq!(s.kind, "file");
    assert_eq!(s.visual, "audio");
    assert_eq!(s.media_file, "");
    assert_eq!(s.duration, 0);
    assert!(s.segments.is_empty() && s.turns.is_empty());
    assert!(s.speakers.entries().is_empty());
    assert_eq!(s.max_speakers, 8);
    assert_eq!(s.message, "");
    assert_eq!(s.created_at.len(), 20);
    assert!(s.created_at.ends_with('Z'));
    let other = Session::new("", "live").unwrap();
    assert_eq!(other.title, "Untitled");
    assert_ne!(other.id, s.id);
}

#[test]
fn ids_come_from_uuids() {
    assert_eq!(id_from_uuid_text("67e55044-10b1-426f-9247-bb680e5fe0c8"), "67e5504410b1");
    assert_eq!(id_from_uuid_text("ab-c"), "abc");
    for _ in 0..20 {
        assert!(is_id(&new_id().unwrap()));
    }
}

#[test]
fn every_speaker_gets_a_name() {
    let mut s = Session::new("Names", "file").unwrap();
    s.segments = vec![seg(2, 0, 1), seg(254, 1, 2)];
    s.turns = vec![turn(8, 0, 1, "hi"), turn(2, 1, 2, "yo")];
    s.speakers.insert(2, SpeakerInfo { name: "Cara".into() });
    ensure_speakers(&mut s);
    assert_eq!(s.speakers.get(2).unwrap().name, "Cara");
    assert_eq!(s.speakers.get(254).unwrap().name, "Overlap");
    assert_eq!(s.speakers.get(8).unwrap().name, "Me");
    assert!(s.speakers.get(3).is_none());
    let entries = s.speakers.entries();
    let ids: Vec<u8> = entries.iter().map(|(id, _)| *id).collect();
    assert_eq!(ids, vec![2, 8, 254]);
    assert_eq!(entries[1].1, "Me");
}

#[test]
fn speaker_names_can_be_changed() {
    let mut names = Speakers::new();
    assert!(!names.contains(1));
    names.insert(1, SpeakerInfo { name: "A".into() });
    names.insert(1, SpeakerInfo { name: "B".into() });
    assert_eq!(names.entries().len(), 1);
    assert_eq!(names.get(1).unwrap().name, "B");
    names.rename(1, "  \n ");
    assert_eq!(names.get(1).unwrap().name, "Speaker 2");
    names.rename(4, " Dana\n");
    assert_eq!(names.get(4).unwrap().name, "Dana");
}

#[test]
fn results_replace_or_merge() {
    let mut s = Session::new("Result", "file").unwrap();
    s.segments = vec![seg(1, 0, 1_000_000)];
    apply_result(&mut s, vec![seg(0, 0, 500_000)], vec![turn(0, 0, 500_000, "hello")], String::new(), None, None);
    assert_eq!(s.segments, vec![seg(0, 0, 500_000)]);
    assert_eq!(s.status, "done");
    assert_eq!(s.message, "Transcript ready");
    assert_eq!(s.speakers.get(0).unwrap().name, "Speaker 1");
    apply_result(&mut s, vec![seg(3, 2_000_000, 3_000_000)], vec![], "Done in 3 s".into(), Some(1_000_000), None);
    assert_eq!(s.segments, vec![seg(3, 2_000_000, 3_000_000)]);
    assert_eq!(s.message, "Done in 3 s");
    apply_result(&mut s, vec![seg(0, 0, 100_000)], vec![], String::new(), Some(0), Some(200_000));
    assert_eq!(s.segments, vec![seg(0, 0, 100_000), seg(3, 2_000_000, 3_000_000)]);
}

#[test]
fn live_updates_only_while_live() {
    let mut s = Session::new("Live", "live").unwrap();
    assert!(!apply_live(&mut s, vec![seg(0, 0, 1)], vec![], true));
    assert!(s.segments.is_empty());
    s.status = "live".into();
    assert!(apply_live(&mut s, vec![seg(0, 0, 1)], vec![], true));
    assert_eq!(s.segments.len(), 1);
    assert_eq!(s.message, "Party on the desktop audio, you on the microphone. Words appear a few seconds later.");
    assert!(apply_live(&mut s, vec![], vec![], false));
    assert_eq!(s.message, "Party on the desktop audio. Microphone is off. Words appear a few seconds later.");
    assert_eq!(s.status, "live");
}

#[test]
fn failures_and_progress_notes() {
    let mut s = Session::new("Fail", "file").unwrap();
    apply_status(&mut s, "\nLoading the model\nstep 2");
    assert_eq!(s.message, "Loading the model");
    assert_eq!(s.status, "ready");
    apply_failure(&mut s, "  CUDA out of memory  \ntrace");
    assert_eq!(s.status, "error");
    assert_eq!(s.message, "CUDA out of memory");
}

#[test]
fn interrupted_work_is_ready_again() {
    for status in ["live", "working", "downloading"] {
        let mut s = Session::new("Cut", "file").unwrap();
        s.status = status.into();
        assert!(recover_interrupted(&mut s));
        assert_eq!(s.status, "ready");
        assert_eq!(s.message, "This was interrupted. Diarize it again when you want.");
    }
    let mut s = Session::new("Done", "file").unwrap();
    s.status = "done".into();
    s.message = "Transcript ready".into();
    assert!(!recover_interrupted(&mut s));
    assert_eq!(s.status, "done");
    assert_eq!(s.message, "Transcript ready");
}

#[test]
fn storing_replaces_or_puts_first() {
    let a = Session::new("A", "file").unwrap();
    let b = Session::new("B", "file").unwrap();
    let a_id = a.id.clone();
    let mut list = vec![a];
    upsert_session(&mut list, b);
    assert_eq!(list.len(), 2);
    assert_eq!(list[0].title, "B");
    let mut again = Session::new("A2", "file").unwrap();
    again.id = a_id.clone();
    upsert_session(&mut list, again);
    assert_eq!(list.len(), 2);
    assert_eq!(list[1].title, "A2");
    assert_eq!(list[1].id, a_id);
}

#[test]
fn log_keeps_the_newest_lines() {
    let mut logs: Vec<String> = Vec::new();
    for i in 0..300 {
        push_log(&mut logs, format!("line {i}"));
    }
    assert_eq!(logs.len(), 300);
    push_log(&mut logs, "line 300".into());
    assert_eq!(logs.len(), 251);
    assert_eq!(logs[0], "line 50");
    assert_eq!(logs[250], "line 300");
}

fn made_at(title: &str, created_at: &str) -> Session {
    let mut s = Session::new(title, "file").unwrap();
    s.created_at = created_at.to_string();
    s
}

#[test]
fn texts_compare_character_by_character() {
    assert!(text_is_before("2024-01-01T00:00:00Z", "2024-01-02T00:00:00Z"));
    assert!(!text_is_before("2024-01-02T00:00:00Z", "2024-01-01T00:00:00Z"));
    assert!(text_is_before("abc", "abcd"));
    assert!(!text_is_before("abc", "abc"));
    assert!(!text_is_before("b", "a"));
    assert!(text_is_before("", "a"));
    assert!(text_is_before("Z", "a"));
    assert!(text_is_before("z", "é"));
}

#[test]
fn sessions_list_newest_first() {
    let sessions = vec![
        made_at("Old", "2024-01-01T10:00:00Z"),
        made_at("New", "2024-03-01T10:00:00Z"),
        made_at("Middle", "2024-02-01T10:00:00Z"),
        made_at("Also middle", "2024-02-01T10:00:00Z"),
    ];
    let sorted = sort_newest_first(sessions);
    let titles: Vec<&str> = sorted.iter().map(|s| s.title.as_str()).collect();
    assert_eq!(titles, vec!["New", "Middle", "Also middle", "Old"]);
    assert!(sort_newest_first(Vec::new()).is_empty());
}

#[test]
fn engine_lines_by_kind() {
    assert_eq!(engine_event("ready"), EngineEvent::Ready);
    assert_eq!(engine_event("status"), EngineEvent::Status);
    assert_eq!(engine_event("result"), EngineEvent::Result);
    assert_eq!(engine_event("live"), EngineEvent::Live);
    assert_eq!(engine_event("error"), EngineEvent::Error);
    assert_eq!(engine_event("progress"), EngineEvent::Other);
    assert_eq!(engine_event(""), EngineEvent::Other);
    assert_eq!(failure_text(""), "The speech engine hit an error.");
    assert_eq!(failure_text("CUDA out of memory"), "CUDA out of memory");
}

#[test]
fn the_clock_reads_as_utc_rfc3339_seconds() {
    let t = utc_now_text().unwrap();
    let b = t.as_bytes();
    assert_eq!(b.len(), 20);
    for (i, c) in b.iter().enumerate() {
        match i {
            4 | 7 => assert_eq!(*c, b'-'),
            10 => assert_eq!(*c, b'T'),
            13 | 16 => assert_eq!(*c, b':'),
            19 => assert_eq!(*c, b'Z'),
            _ => assert!(c.is_ascii_digit()),
        }
    }
    assert!(t.as_str() > "2024");
    let s = Session::new("Now", "file").unwrap();
    assert_eq!(s.created_at.len(), 20);
    assert!(s.created_at.as_str() >= t.as_str());
}

#[test]
fn ids_come_from_the_first_six_random_bytes() {
    let bytes = [0x67, 0xe5, 0x50, 0x44, 0x10, 0xb1, 0x42, 0x6f, 0x92, 0x47, 0xbb, 0x68, 0x0e, 0x5f, 0xe0, 0xc8];
    assert_eq!(id_from_bytes(bytes), "67e5504410b1");
    assert_eq!(id_from_bytes([0xff; 16]), "ffffffffffff");
    assert_eq!(id_from_bytes([0; 16]), "000000000000");
}

#[test]
fn seconds_read_as_utc_rfc3339_text() {
    assert_eq!(utc_text_at(0).as_deref(), Some("1970-01-01T00:00:00Z"));
    assert_eq!(utc_text_at(1_431_648_000).as_deref(), Some("2015-05-15T00:00:00Z"));
    assert_eq!(utc_text_at(253_402_300_799).as_deref(), Some("9999-12-31T23:59:59Z"));
    assert_eq!(utc_text_at(253_402_300_800).as_deref(), Some("+10000-01-01T00:00:00Z"));
    assert_eq!(utc_text_at(u64::MAX), None);
}

#[test]
fn a_session_takes_the_identity_it_is_given() {
    let s = Session::with_identity("0123456789ab".into(), "2024-01-02T03:04:05Z".into(), " Talk\n", "file");
    assert_eq!(s.id, "0123456789ab");
    assert_eq!(s.created_at, "2024-01-02T03:04:05Z");
    assert_eq!(s.title, "Talk");
    assert_eq!(s.status, "ready");
    assert_eq!(s.kind, "file");
    assert_eq!(s.visual, "audio");
    assert_eq!(s.max_speakers, 8);
    assert!(s.segments.is_empty() && s.turns.is_empty() && s.message.is_empty());
}
