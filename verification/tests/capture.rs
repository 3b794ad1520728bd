use base64::Engine;
use speaker_studio::capture::{
    begin_live, capture_step, mic_gap, CaptureAction, CaptureEvent, LiveBuffers, SEND_BATCH,
};
use speaker_studio::peaks::{amplitude, downsample, LiveMeter, PeakScan};
use speaker_studio::session::Session;
use speaker_studio::speakers::ME;
use speaker_studio::wav::{chunk_step, fmt_rate, pcm_le_bytes, riff_is_wave, wav_header, ChunkStep};

fn describe(actions: &[CaptureAction]) -> Vec<String> {
    actions
        .iter()
        .map(|a| match a {
            CaptureAction::WriteDesktop(p) => format!("write desktop {p:?}"),
            CaptureAction::WriteMic(p) => format!("write mic {p:?}"),
            CaptureAction::OpenMicTrack => "open mic".to_string(),
            CaptureAction::PadMic(n) => format!("pad {n}"),
            CaptureAction::Send(b) => format!("send {} {}", b.source, b.pcm),
            CaptureAction::SendMicPad(n) => format!("send pad {n}"),
            CaptureAction::RestartClock => "clock".to_string(),
        })
        .collect()
}

fn step(live: &mut LiveBuffers, ev: CaptureEvent) -> Vec<String> {
    describe(&capture_step(live, ev))
}

#[test]
fn live_samples_wait_then_go_together() {
    let mut live = LiveBuffers::new(true);
    assert!(live.is_empty());
    assert_eq!(step(&mut live, CaptureEvent::Desktop(vec![1, 2, 3])), vec!["write desktop [1, 2, 3]"]);
    assert!(live.is_empty());
    assert!(step(&mut live, CaptureEvent::DesktopWritten(vec![1, 2, 3])).is_empty());
    assert_eq!(step(&mut live, CaptureEvent::Mic(vec![-4])), vec!["write mic [-4]"]);
    assert!(step(&mut live, CaptureEvent::MicWritten(vec![-4])).is_empty());
    assert!(!live.is_empty());
    assert!(!live.due(10));
    assert!(step(&mut live, CaptureEvent::Tick { waited_ms: 10 }).is_empty());
    assert!(live.due(50));
    assert_eq!(
        step(&mut live, CaptureEvent::Tick { waited_ms: 50 }),
        vec!["send desktop AQACAAMA", "send mic /P8=", "clock"]
    );
    assert!(live.is_empty());
    assert_eq!(step(&mut live, CaptureEvent::Timeout), vec!["clock"]);
    assert!(step(&mut live, CaptureEvent::Closed).is_empty());
}

#[test]
fn a_full_batch_is_due_at_once() {
    let mut live = LiveBuffers::new(false);
    live.add_desktop(&vec![0i16; SEND_BATCH - 1]);
    assert!(!live.due(0));
    live.add_mic(&[7]);
    assert!(live.due(0));
    let sent = step(&mut live, CaptureEvent::Tick { waited_ms: 0 });
    assert_eq!(sent.len(), 3);
    assert!(sent[0].starts_with("send desktop "));
    assert_eq!(sent[1], "send mic BwA=");
    assert!(live.is_empty());
}

#[test]
fn microphone_packets_need_the_microphone_on() {
    let mut live = LiveBuffers::new(false);
    assert!(step(&mut live, CaptureEvent::Mic(vec![5])).is_empty());
    assert_eq!(step(&mut live, CaptureEvent::MicOn { desktop_samples: 0, mic_samples: Some(0) }), vec!["clock"]);
    assert!(live.mic_on);
    assert_eq!(step(&mut live, CaptureEvent::Mic(vec![5])), vec!["write mic [5]"]);
    step(&mut live, CaptureEvent::MicWritten(vec![5]));
    assert_eq!(step(&mut live, CaptureEvent::MicOff), vec!["send mic BQA=", "clock"]);
    assert!(!live.mic_on);
    assert!(step(&mut live, CaptureEvent::Mic(vec![5])).is_empty());
}

#[test]
fn turning_me_on_sends_what_waits_then_pads_the_track() {
    let mut live = LiveBuffers::new(false);
    live.add_desktop(&[1]);
    assert_eq!(
        step(&mut live, CaptureEvent::MicOn { desktop_samples: 48000, mic_samples: Some(16000) }),
        vec!["send desktop AQA=", "pad 32000", "clock"]
    );
    assert_eq!(step(&mut live, CaptureEvent::MicPadded(32000)), vec!["send pad 32000"]);
    assert!(live.mic_on && live.is_empty());
}

#[test]
fn turning_me_on_without_a_track_opens_one_first() {
    let mut live = LiveBuffers::new(false);
    assert_eq!(
        step(&mut live, CaptureEvent::MicOn { desktop_samples: 800, mic_samples: None }),
        vec!["open mic", "clock"]
    );
    assert!(!live.mic_on);
    assert_eq!(step(&mut live, CaptureEvent::MicOpened { desktop_samples: 800 }), vec!["pad 800"]);
    assert!(live.mic_on);
    let mut failed = LiveBuffers::new(false);
    step(&mut failed, CaptureEvent::MicOn { desktop_samples: 800, mic_samples: None });
    assert!(step(&mut failed, CaptureEvent::MicOpenFailed).is_empty());
    assert!(!failed.mic_on);
}

#[test]
fn closing_hands_over_everything() {
    let mut live = LiveBuffers::new(true);
    live.add_desktop(&[1, 2, 3]);
    live.add_mic(&[-4]);
    assert_eq!(step(&mut live, CaptureEvent::Closed), vec!["send desktop AQACAAMA", "send mic /P8="]);
    assert!(live.is_empty());
}

#[test]
fn turning_me_back_on_pads_to_the_desktop_clock() {
    assert_eq!(mic_gap(48000, 16000), 32000);
    assert_eq!(mic_gap(16000, 16000), 0);
    assert_eq!(mic_gap(100, 400), 0);
}

#[test]
fn starting_live_names_me_only_with_the_microphone() {
    let mut session = Session::new("Game night", "live").unwrap();
    begin_live(&mut session, true, "Headphones", "Desk mic");
    assert_eq!(session.status, "live");
    assert_eq!(session.media_file, "audio.wav");
    assert_eq!(session.visual, "audio");
    assert_eq!(session.speakers.get(ME).unwrap().name, "Me");
    assert_eq!(
        session.message,
        "Party \u{b7} Headphones. You \u{b7} Desk mic. Words appear a few seconds later."
    );

    let mut quiet = Session::new("Game night", "live").unwrap();
    begin_live(&mut quiet, false, "Headphones", "Desk mic");
    assert!(quiet.speakers.get(ME).is_none());
    assert_eq!(
        quiet.message,
        "Party \u{b7} Headphones. Microphone is off. Words appear a few seconds later."
    );
}

#[test]
fn amplitude_is_distance_from_zero() {
    assert_eq!(amplitude(0), 0);
    assert_eq!(amplitude(1000), 1000);
    assert_eq!(amplitude(-1000), 1000);
    assert_eq!(amplitude(i16::MIN), 32768);
    assert_eq!(amplitude(i16::MAX), 32767);
}

#[test]
fn downsample_keeps_the_loudest_of_each_stretch() {
    assert_eq!(downsample(&[], 4), Vec::<u16>::new());
    assert_eq!(downsample(&[1, 2], 0), Vec::<u16>::new());
    assert_eq!(downsample(&[3, 1, 2], 4), vec![3, 1, 2]);
    assert_eq!(downsample(&[1, 9, 2, 3, 8, 4], 3), vec![9, 3, 8]);
    assert_eq!(downsample(&[5, 1, 1, 7, 2], 2), vec![5, 7]);
}

fn scan(bytes: &[u8], points: usize) -> (u64, Vec<u16>) {
    let (_, frames, peaks) = scan_with_rate(bytes, points);
    (frames, peaks)
}

fn scan_with_rate(bytes: &[u8], points: usize) -> (u32, u64, Vec<u16>) {
    assert!(riff_is_wave(&bytes[0..12]));
    let mut pos = 12usize;
    let mut rate = 16000u32;
    loop {
        match chunk_step(&bytes[pos..pos + 8], (pos + 8) as u64) {
            ChunkStep::Data { pos: start, size } => {
                let start = start as usize;
                let mut peaks = PeakScan::new(points, size as u32);
                let mut at = start;
                let end = start + size as usize;
                while at < end {
                    let want = (end - at).min(4);
                    peaks.feed(&bytes[at..at + want]);
                    at += want;
                }
                return (rate, peaks.frames(), peaks.peaks());
            }
            ChunkStep::Format { size, pad } => {
                rate = fmt_rate(&bytes[pos + 8..pos + 8 + size as usize]);
                pos += 8 + size as usize + pad as usize;
            }
            ChunkStep::Skip { size, pad } => {
                pos += 8 + size as usize + pad as usize;
            }
        }
    }
}

#[test]
fn peaks_read_back_a_written_wav() {
    let mut file = wav_header(4).to_vec();
    file.extend(pcm_le_bytes(&[0, 16000, -32000, 1000]));
    let (rate, frames, peaks) = scan_with_rate(&file, 4);
    let duration = frames as f64 / rate as f64;
    assert!((duration - 4.0 / 16000.0).abs() < 0.0001);
    assert_eq!(peaks.len(), 4);
    assert!(peaks[2] as f32 / 32768.0 > 0.9);
    assert_eq!(peaks, vec![0, 16000, 32000, 1000]);
    let (_, two) = scan(&file, 2);
    assert_eq!(two, vec![16000, 32000]);
}

#[test]
fn an_empty_chunk_draws_one_silent_point() {
    let file = wav_header(0).to_vec();
    let (frames, peaks) = scan(&file, 2000);
    assert_eq!(frames, 0);
    assert_eq!(peaks, vec![0]);
}

#[test]
fn points_are_held_between_one_and_four_thousand() {
    let mut file = wav_header(3).to_vec();
    file.extend(pcm_le_bytes(&[5, -6, 7]));
    let (_, one) = scan(&file, 0);
    assert_eq!(one, vec![7]);
    let (_, many) = scan(&file, 9000);
    assert_eq!(many.len(), 4000);
    assert_eq!(many[0], 5);
    assert_eq!(many[1333], 6);
    assert_eq!(many[2666], 7);
    assert_eq!(many[3999], 0);
}

#[test]
fn silence_keeps_earlier_audio() {
    let mut meter = LiveMeter::new();
    meter.note_pcm(&[1000, -1000]);
    meter.note_silence(16000);
    let points = meter.snapshot();
    // 16002 samples: ten full tenths of a second and two samples more
    assert_eq!(points.len(), 11);
    assert!(points[0] as f32 / 32768.0 > 0.0);
    assert_eq!(points[0], 1000);
    assert!(points[1..].iter().all(|p| *p == 0));
    // the same track as written to disk, read back through the chunk walk
    let mut file = wav_header(16002).to_vec();
    file.extend(pcm_le_bytes(&[1000, -1000]));
    file.extend(vec![0u8; 32000]);
    let (rate, frames, peaks) = scan_with_rate(&file, 8);
    assert_eq!(frames, 16002);
    let duration = frames as f64 / rate as f64;
    assert!((duration - 16002.0 / 16000.0).abs() < 0.001);
    assert!(peaks[0] as f32 / 32768.0 > 0.0);
    assert_eq!(peaks.len(), 8);
}

#[test]
fn the_meter_marks_each_tenth_of_a_second() {
    let mut meter = LiveMeter::new();
    assert!(meter.snapshot().is_empty());
    let mut block = vec![0i16; 1600];
    block[10] = -300;
    meter.note_pcm(&block);
    assert_eq!(meter.snapshot(), vec![300]);
    meter.note_pcm(&[20, -40]);
    assert_eq!(meter.snapshot(), vec![300, 40]);
}

#[test]
fn a_long_meter_is_thinned_to_two_thousand_points() {
    let mut meter = LiveMeter::new();
    meter.note_silence(1600 * 3999);
    meter.note_pcm(&[123]);
    let points = meter.snapshot();
    assert_eq!(points.len(), 2000);
    assert_eq!(points[1999], 123);
}

#[test]
fn recording_more_leaves_finished_meter_points_alone() {
    let mut meter = LiveMeter::new();
    let mut first = vec![0i16; 3200];
    first[5] = 700;
    first[2000] = -900;
    meter.note_pcm(&first);
    meter.note_pcm(&[10, 20]);
    let before = meter.snapshot();
    assert_eq!(before, vec![700, 900, 20]);
    meter.note_pcm(&vec![30000i16; 1600]);
    meter.note_silence(5000);
    let after = meter.snapshot();
    assert_eq!(&after[..2], &before[..2]);
    assert_eq!(after[2], 30000);
}

/// Runs the loop as the app does: each write is performed and reported
/// back, and the sent batches are decoded per source.
fn run_loop(mic_on: bool, events: Vec<CaptureEvent>) -> (Vec<i16>, Vec<i16>, Vec<i16>, Vec<i16>) {
    let mut live = LiveBuffers::new(mic_on);
    let (mut desktop_track, mut mic_track) = (Vec::new(), Vec::new());
    let (mut desktop_sent, mut mic_sent) = (Vec::new(), Vec::new());
    let mut queue: std::collections::VecDeque<CaptureEvent> = events.into();
    while let Some(ev) = queue.pop_front() {
        for action in capture_step(&mut live, ev) {
            match action {
                CaptureAction::WriteDesktop(p) => {
                    desktop_track.extend_from_slice(&p);
                    queue.push_front(CaptureEvent::DesktopWritten(p));
                }
                CaptureAction::WriteMic(p) => {
                    mic_track.extend_from_slice(&p);
                    queue.push_front(CaptureEvent::MicWritten(p));
                }
                CaptureAction::Send(batch) => {
                    let bytes = base64::engine::general_purpose::STANDARD.decode(batch.pcm).unwrap();
                    let samples = bytes.chunks(2).map(|b| i16::from_le_bytes([b[0], b[1]]));
                    if batch.source == "desktop" {
                        desktop_sent.extend(samples);
                    } else {
                        mic_sent.extend(samples);
                    }
                }
                _ => {}
            }
        }
    }
    (desktop_track, desktop_sent, mic_track, mic_sent)
}

#[test]
fn a_whole_recording_sends_each_written_sample_once_in_order() {
    let (desktop_track, desktop_sent, mic_track, mic_sent) = run_loop(
        true,
        vec![
            CaptureEvent::Desktop(vec![1, 2]),
            CaptureEvent::Mic(vec![10]),
            CaptureEvent::Tick { waited_ms: 60 },
            CaptureEvent::Desktop(vec![3]),
            CaptureEvent::MicOff,
            CaptureEvent::Mic(vec![99, 98]),
            CaptureEvent::Desktop(vec![-4, 5]),
            CaptureEvent::MicOn { desktop_samples: 5, mic_samples: Some(1) },
            CaptureEvent::Mic(vec![11, 12]),
            CaptureEvent::Timeout,
            CaptureEvent::Desktop(vec![6]),
            CaptureEvent::Closed,
        ],
    );
    assert_eq!(desktop_track, vec![1, 2, 3, -4, 5, 6]);
    assert_eq!(desktop_sent, desktop_track);
    assert_eq!(mic_track, vec![10, 11, 12]);
    assert_eq!(mic_sent, mic_track);
}
