use speaker_studio::page::{transcript_page, Portrait};
use speaker_studio::session::{Segment, Session, Turn};
use speaker_studio::speakers::{css_color, visible, voice_color, SpeakerInfo, ME};
use speaker_studio::studio::{
    accepted_link, begin_diarizing, begin_download, begin_import, delete_session, diarize_request,
    end_live, engine_badge, export_file_name, finish_import, mark_working,
    is_download_leftover, is_info_file, is_source_file, live_start_note, note_mic_off,
    output_device_name, EngineBadge,
};
use speaker_studio::transcript::{lane_speakers, line_is_playing, stamp, transcript_text};
use speaker_studio::waveform::wave_speakers;

fn seg(speaker: u8, start: u64, end: u64) -> Segment {
    Segment { speaker, start, end }
}

fn turn(speaker: u8, start: u64, end: u64, text: &str) -> Turn {
    Turn { speaker, start, end, text: text.to_string() }
}

#[test]
fn time_stamps() {
    assert_eq!(stamp(0), "0:00.0");
    assert_eq!(stamp(5_300_000), "0:05.3");
    assert_eq!(stamp(65_000_000), "1:05.0");
    assert_eq!(stamp(59_960_000), "0:60.0");
    assert_eq!(stamp(250_000), "0:00.2");
    assert_eq!(stamp(350_000), "0:00.4");
    assert_eq!(stamp(3_725_449_999), "62:05.4");
}

#[test]
fn selection_text() {
    let mut s = Session::new("Text", "file").unwrap();
    s.turns = vec![
        turn(0, 0, 2_000_000, "hello"),
        turn(9, 2_000_000, 3_000_000, "hidden"),
        turn(255, 4_000_000, 5_000_000, "maybe"),
        turn(1, 10_000_000, 11_000_000, "later"),
    ];
    s.speakers.insert(0, SpeakerInfo { name: "Cara".into() });
    assert_eq!(
        transcript_text(&s, 1_000_000, 5_000_000, 8),
        "[0:00.0] Cara: hello\n[0:04.0] Speaker: maybe"
    );
    assert_eq!(transcript_text(&s, 0, 20_000_000, 1), "[0:00.0] Cara: hello\n[0:04.0] Speaker: maybe");
    assert_eq!(transcript_text(&s, 12_000_000, 20_000_000, 8), "");
}

#[test]
fn lanes() {
    let segments = vec![seg(3, 0, 1), seg(9, 0, 1), seg(254, 0, 1)];
    let turns = vec![turn(1, 0, 1, "a"), turn(3, 0, 1, "b"), turn(ME, 0, 1, "c")];
    // Me keeps its lane after the microphone is turned off: its speech stays visible
    assert_eq!(lane_speakers(&segments, &turns, false, 8), vec![1, 3, 8, 254]);
    assert_eq!(lane_speakers(&segments, &turns[..2].to_vec(), false, 8), vec![1, 3, 254]);
    assert_eq!(lane_speakers(&segments, &turns, true, 2), vec![1, 8, 254]);
    assert_eq!(lane_speakers(&[].to_vec(), &[].to_vec(), true, 8), vec![8]);
}

#[test]
fn visibility_and_colours() {
    assert!(visible(ME, 1));
    assert!(visible(ME, 8));
    assert!(visible(254, 0));
    assert!(visible(255, 0));
    assert!(visible(2, 3));
    assert!(!visible(3, 3));
    assert_eq!(voice_color(0), (85, 230, 238));
    assert_eq!(voice_color(9), (168, 92, 255));
    assert_eq!(voice_color(ME), (255, 244, 214));
    assert_eq!(css_color(254), "rgb(255, 186, 120)");
    assert_eq!(css_color(255), "rgb(150, 156, 176)");
}

#[test]
fn diarize_ranges() {
    let whole = diarize_request(40_000, 9_960_000, 10_000_000);
    assert!(whole.full);
    assert_eq!((whole.start, whole.end), (None, None));
    assert_eq!(whole.message, "Diarizing with Nemotron 3");
    let part = diarize_request(1_000_000, 2_000_000, 10_000_000);
    assert!(!part.full);
    assert_eq!((part.start, part.end), (Some(1_000_000), Some(2_000_000)));
    assert_eq!(part.message, "Diarizing the selection");
    let flipped = diarize_request(3_000_000, 1_000_000, 10_000_000);
    assert_eq!((flipped.start, flipped.end), (Some(3_000_000), Some(3_000_000)));
    assert!(diarize_request(0, 0, 30_000).full);
}

#[test]
fn links() {
    assert_eq!(accepted_link("  https://example.com/v?id=1 \n"), Some("https://example.com/v?id=1".to_string()));
    assert_eq!(accepted_link("http://a.b"), Some("http://a.b".to_string()));
    assert_eq!(accepted_link("ftp://a.b"), None);
    assert_eq!(accepted_link("example.com"), None);
    let long = format!("https://{}", "a".repeat(1992));
    assert_eq!(accepted_link(&long).map(|s| s.len()), Some(2000));
    let too_long = format!("https://{}", "é".repeat(997));
    assert_eq!(accepted_link(&too_long), None);
}

#[test]
fn file_names() {
    assert_eq!(export_file_name("a/b: c? \"d\" <e>|*\\", "html"), "ab c d e.html");
    assert_eq!(export_file_name("", "txt"), ".txt");
    assert!(is_source_file("source.mp4"));
    assert!(!is_source_file("source.info.json"));
    assert!(!is_source_file("source.mp4.part"));
    assert!(!is_source_file("source.f137.mp4.ytdl"));
    assert!(!is_source_file("video.mp4"));
    assert!(is_download_leftover("source.f137.mp4"));
    assert!(!is_download_leftover("audio.wav"));
    assert!(is_info_file("source.info.json"));
    assert!(!is_info_file("source.json"));
}

#[test]
fn devices_and_engine_state() {
    let devices = vec![("id-1".to_string(), "Speakers".to_string()), ("id-2".to_string(), "Headset".to_string())];
    assert_eq!(output_device_name(&devices, "id-2"), "Headset");
    assert_eq!(output_device_name(&devices, ""), "Windows default output");
    assert_eq!(engine_badge("ready"), EngineBadge::Ready);
    assert_eq!(engine_badge("error"), EngineBadge::Failed);
    assert_eq!(engine_badge("missing"), EngineBadge::Failed);
    assert_eq!(engine_badge("loading"), EngineBadge::Loading);
}

#[test]
fn live_notes() {
    assert_eq!(
        live_start_note(true, "Headset", "Mic"),
        "Party · Headset. You · Mic. Words appear a few seconds later."
    );
    assert_eq!(
        live_start_note(false, "Headset", "unavailable"),
        "Party · Headset. Microphone is off. Words appear a few seconds later."
    );
    let mut s = Session::new("Live", "live").unwrap();
    s.message = "old".into();
    note_mic_off(&mut s);
    assert_eq!(s.message, "old");
    s.status = "live".into();
    note_mic_off(&mut s);
    assert_eq!(s.message, "Me is off. Earlier microphone audio stays on the session clock.");
}

#[test]
fn imports_and_deletion() {
    let mut s = Session::new("Clip", "file").unwrap();
    finish_import(&mut s, "source.mp4", "mp4", 12_500_000);
    assert_eq!((s.media_file.as_str(), s.visual.as_str(), s.duration), ("source.mp4", "video", 12_500_000));
    finish_import(&mut s, "source.mp3", "mp3", 1);
    assert_eq!(s.visual, "audio");
    let a = Session::new("A", "file").unwrap();
    let b = Session::new("B", "file").unwrap();
    let a_id = a.id.clone();
    let mut list = vec![a, b];
    assert!(!delete_session(&mut list, &a_id, Some(&a_id)));
    assert_eq!(list.len(), 2);
    assert!(delete_session(&mut list, &a_id, None));
    assert_eq!(list.len(), 1);
    assert_eq!(list[0].title, "B");
}

#[test]
fn transcript_page_lists_people_and_lines() {
    let mut s = Session::new("Tom & <Jerry>", "file").unwrap();
    s.turns = vec![
        turn(1, 2_000_000, 3_000_000, "second"),
        turn(0, 0, 1_000_000, "a < b"),
        turn(9, 500_000, 600_000, "hidden"),
    ];
    s.speakers.insert(0, SpeakerInfo { name: "Cara \"C\"".into() });
    let portraits = vec![Portrait { speaker: 1, png: vec![0x89, 0x50, 0x4e, 0x47] }];
    let html = transcript_page(&s, &portraits);
    assert!(html.starts_with("<!DOCTYPE html><html lang=\"en\"><head><meta charset=\"utf-8\">"));
    assert!(html.contains("<title>Tom &amp; &lt;Jerry&gt;</title>"));
    assert!(html.contains("<h1>Tom &amp; &lt;Jerry&gt;</h1><p class=\"sub\">2 lines</p>"));
    let people = "<div class=\"people\"><div class=\"person\"><span class=\"dot\" style=\"background:rgb(85, 230, 238)\"></span><span style=\"color:rgb(85, 230, 238)\">Cara &quot;C&quot;</span></div><div class=\"person\"><img alt=\"\" src=\"data:image/png;base64,iVBORw==\"><span style=\"color:rgb(168, 92, 255)\">Speaker 2</span></div></div>";
    assert!(html.contains(people));
    let first = "<article class=\"line\"><span class=\"dot\" style=\"background:rgb(85, 230, 238)\"></span><div><div class=\"who\" style=\"color:rgb(85, 230, 238)\">Cara &quot;C&quot;<span class=\"when\">0:00.0</span></div><p>a &lt; b</p></div></article>";
    let second = "<article class=\"line\"><img alt=\"\" src=\"data:image/png;base64,iVBORw==\"><div><div class=\"who\" style=\"color:rgb(168, 92, 255)\">Speaker 2<span class=\"when\">0:02.0</span></div><p>second</p></div></article>";
    assert!(html.ends_with(&format!("{first}{second}</main></body></html>")));
    assert!(!html.contains("hidden"));
}

#[test]
fn waveform_points_take_the_first_covering_speaker() {
    let segments = vec![
        Segment { speaker: 1, start: 500, end: 900 },
        Segment { speaker: 0, start: 0, end: 400 },
        Segment { speaker: 2, start: 300, end: 600 },
        Segment { speaker: 7, start: 0, end: 1000 },
        Segment { speaker: 3, start: 950, end: 950 },
    ];
    // points at 0, 100, ..., 900 µs
    let colours = wave_speakers(&segments, 3, 10, 1000);
    assert_eq!(
        colours,
        vec![Some(0), Some(0), Some(0), Some(0), Some(2), Some(2), Some(1), Some(1), Some(1), None]
    );
    let all = wave_speakers(&segments, 8, 4, 1000);
    assert_eq!(all, vec![Some(0), Some(0), Some(7), Some(7)]);
    assert_eq!(wave_speakers(&segments, 3, 2, 0), vec![Some(0), Some(0)]);
    assert!(wave_speakers(&Vec::new(), 8, 3, 10).iter().all(|s| s.is_none()));
}

#[test]
fn a_line_plays_until_shortly_after_it_ends() {
    let turn = Turn { speaker: 0, start: 1_000_000, end: 2_000_000, text: "Hi".into() };
    assert!(!line_is_playing(999_999, &turn));
    assert!(line_is_playing(1_000_000, &turn));
    assert!(line_is_playing(2_349_999, &turn));
    assert!(!line_is_playing(2_350_000, &turn));
}

#[test]
fn progress_steps_set_status_and_note() {
    let mut s = Session::new("Steps", "file").unwrap();
    let id = s.id.clone();
    begin_import(&mut s);
    assert_eq!((s.status.as_str(), s.message.as_str()), ("working", "Reading audio"));
    begin_download(&mut s);
    assert_eq!((s.status.as_str(), s.message.as_str()), ("downloading", "Downloading"));
    begin_diarizing(&mut s, None);
    assert_eq!((s.status.as_str(), s.message.as_str()), ("working", "Diarizing with Nemotron 3"));
    begin_diarizing(&mut s, Some("Diarizing the selection"));
    assert_eq!(s.message, "Diarizing the selection");
    s.status = "ready".into();
    mark_working(&mut s);
    assert_eq!((s.status.as_str(), s.message.as_str()), ("working", "Diarizing the selection"));
    assert_eq!(s.id, id);
}

#[test]
fn ending_live_keeps_the_length_it_could_not_read() {
    let mut s = Session::new("Live", "live").unwrap();
    s.duration = 7;
    end_live(&mut s, None);
    assert_eq!(s.duration, 7);
    assert_eq!((s.status.as_str(), s.message.as_str()), ("working", "Separating you from the party"));
    end_live(&mut s, Some(3_000_000));
    assert_eq!(s.duration, 3_000_000);
}
