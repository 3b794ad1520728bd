use speaker_studio::merge::{merge_selection, overlaps_time};
use speaker_studio::session::{Segment, Session, Turn};
use speaker_studio::speakers::{counted_speaker, SpeakerInfo, ME, OVERLAP_SPEAKER, UNASSIGNED_SPEAKER};

fn seg(speaker: u8, start: u64, end: u64) -> Segment {
    Segment { speaker, start, end }
}

fn turn(speaker: u8, start: u64, end: u64, text: &str) -> Turn {
    Turn { speaker, start, end, text: text.to_string() }
}

#[test]
fn selection_keeps_outside_audio_and_remaps_speakers() {
    let mut session = Session::new("Range", "file").unwrap();
    session.segments = vec![seg(3, 0, 5_000_000), seg(1, 6_000_000, 9_000_000), seg(ME, 1_000_000, 2_000_000)];
    session.turns = vec![
        turn(3, 0, 5_000_000, "inside"),
        turn(1, 6_000_000, 9_000_000, "later"),
        turn(ME, 1_000_000, 2_000_000, "me"),
    ];
    session.speakers.insert(3, SpeakerInfo { name: "Cara".into() });
    merge_selection(
        &mut session,
        vec![seg(0, 200_000, 4_800_000)],
        vec![turn(0, 200_000, 4_800_000, "replaced")],
        0,
        5_000_000,
    );
    assert!(session.turns.iter().any(|turn| turn.speaker == 3 && turn.text == "replaced"));
    assert!(session.turns.iter().any(|turn| turn.speaker == 1 && turn.text == "later"));
    assert!(session.turns.iter().any(|turn| turn.speaker == ME && turn.text == "me"));
    assert!(!session.turns.iter().any(|turn| turn.text == "inside"));
    assert!(counted_speaker(ME, 8));
    assert!(counted_speaker(OVERLAP_SPEAKER, 8));
    assert!(counted_speaker(UNASSIGNED_SPEAKER, 8));
}

#[test]
fn merged_lists_are_in_time_order() {
    let mut session = Session::new("Order", "file").unwrap();
    session.segments = vec![seg(2, 10_000_000, 12_000_000), seg(ME, 3_000_000, 4_000_000), seg(1, 0, 1_000_000)];
    session.turns = vec![turn(2, 10_000_000, 12_000_000, "late"), turn(1, 0, 1_000_000, "early")];
    merge_selection(
        &mut session,
        vec![seg(5, 6_000_000, 7_000_000), seg(ME, 6_500_000, 6_600_000), seg(254, 6_000_000, 6_100_000)],
        vec![turn(5, 6_000_000, 7_000_000, "middle"), turn(255, 6_100_000, 6_200_000, "unsure")],
        5_000_000,
        8_000_000,
    );
    let starts: Vec<u64> = session.segments.iter().map(|s| s.start).collect();
    assert_eq!(starts, vec![0, 3_000_000, 6_000_000, 6_000_000, 10_000_000]);
    let texts: Vec<&str> = session.turns.iter().map(|t| t.text.as_str()).collect();
    assert_eq!(texts, vec!["early", "middle", "unsure", "late"]);
    // the new voice shares nothing with old activity, so it takes the lowest free id
    assert_eq!(session.segments[2].speaker, 0);
    assert_eq!(session.turns[1].speaker, 0);
    // uncertain labels of the new analysis come in as they are; its "Me" does not
    assert_eq!(session.segments[3].speaker, OVERLAP_SPEAKER);
    assert_eq!(session.turns[2].speaker, UNASSIGNED_SPEAKER);
    assert!(!session.segments.iter().any(|s| s.speaker == ME && s.start == 6_500_000));
}

#[test]
fn short_overlap_does_not_rename() {
    let mut session = Session::new("Short", "file").unwrap();
    session.segments = vec![seg(0, 0, 1_000_000), seg(1, 1_000_000, 2_000_000), seg(2, 5_000_000, 6_000_000)];
    // new voice 4 overlaps old voice 1 by 0.2 s only: it gets the lowest id
    // not used outside the range, which is 1 again
    merge_selection(&mut session, vec![seg(4, 1_800_000, 2_500_000)], vec![], 1_000_000, 3_000_000);
    let ids: Vec<u8> = session.segments.iter().map(|s| s.speaker).collect();
    assert_eq!(ids, vec![0, 1, 2]);
    assert_eq!(session.segments[0], seg(0, 0, 1_000_000));
    assert_eq!(session.segments[1], seg(1, 1_800_000, 2_500_000));
    // with ids 0..=7 all in use outside the range it falls back to the best overlap
    let mut busy = Session::new("Busy", "file").unwrap();
    busy.segments = (0..8u8).map(|i| seg(i, 10_000_000 + i as u64, 11_000_000)).collect();
    busy.segments.push(seg(5, 1_000_000, 2_000_000));
    merge_selection(&mut busy, vec![seg(7, 1_900_000, 2_500_000)], vec![], 1_000_000, 3_000_000);
    assert_eq!(busy.segments[0], seg(5, 1_900_000, 2_500_000));
}

#[test]
fn distinct_new_voices_stay_apart() {
    let mut session = Session::new("Two", "file").unwrap();
    session.segments = vec![seg(2, 0, 4_000_000)];
    merge_selection(
        &mut session,
        vec![seg(0, 0, 2_000_000), seg(1, 2_000_000, 2_100_000)],
        vec![],
        0,
        4_000_000,
    );
    let ids: Vec<u8> = session.segments.iter().map(|s| s.speaker).collect();
    assert_eq!(ids, vec![2, 0]);
}

#[test]
fn overlap_of_time_spans() {
    assert!(overlaps_time(0, 5, 4, 10));
    assert!(!overlaps_time(0, 5, 5, 10));
    assert!(!overlaps_time(10, 12, 5, 10));
    assert!(overlaps_time(6, 7, 5, 10));
}

#[test]
fn unmatched_new_voices_stay_apart_from_each_other_and_from_outside() {
    let mut session = Session::new("Apart", "file").unwrap();
    session.segments = vec![seg(0, 0, 1_000_000), seg(2, 9_000_000, 10_000_000), seg(1, 4_000_000, 6_000_000)];
    session.turns = vec![turn(0, 0, 1_000_000, "before"), turn(2, 9_000_000, 10_000_000, "after")];
    merge_selection(
        &mut session,
        vec![seg(4, 3_000_000, 3_100_000), seg(6, 6_500_000, 7_000_000)],
        vec![turn(4, 3_000_000, 3_100_000, "one"), turn(6, 6_500_000, 7_000_000, "two")],
        3_000_000,
        8_000_000,
    );
    let one = session.turns.iter().find(|t| t.text == "one").unwrap().speaker;
    let two = session.turns.iter().find(|t| t.text == "two").unwrap().speaker;
    assert_ne!(one, two);
    assert!(one != 0 && one != 2 && two != 0 && two != 2);
    assert_eq!((one, two), (1, 3));
}

#[test]
fn an_unmatched_voice_first_can_take_an_id_a_later_match_also_takes() {
    // Old voice 0 lives only inside the range. New voice 5 comes first and
    // shares nothing with it, so it takes the lowest free id, 0; new voice 6
    // overlaps old voice 0 for a second and takes 0 as well.
    let mut session = Session::new("Shared", "file").unwrap();
    session.segments = vec![seg(0, 2_000_000, 4_000_000)];
    session.turns = vec![];
    merge_selection(
        &mut session,
        vec![seg(5, 5_000_000, 6_000_000), seg(6, 2_000_000, 3_000_000)],
        vec![turn(5, 5_000_000, 6_000_000, "first"), turn(6, 2_000_000, 3_000_000, "second")],
        1_000_000,
        7_000_000,
    );
    let first = session.turns.iter().find(|t| t.text == "first").unwrap().speaker;
    let second = session.turns.iter().find(|t| t.text == "second").unwrap().speaker;
    assert_eq!((first, second), (0, 0));
}

#[test]
fn reanalysis_replaces_uncertain_labels_in_the_range() {
    let mut session = Session::new("Unsure", "file").unwrap();
    session.segments = vec![seg(OVERLAP_SPEAKER, 2_000_000, 3_000_000), seg(UNASSIGNED_SPEAKER, 9_000_000, 9_500_000)];
    session.turns = vec![
        turn(UNASSIGNED_SPEAKER, 2_000_000, 3_000_000, "old guess"),
        turn(UNASSIGNED_SPEAKER, 9_000_000, 9_500_000, "outside"),
    ];
    merge_selection(
        &mut session,
        vec![seg(UNASSIGNED_SPEAKER, 2_100_000, 2_900_000)],
        vec![turn(UNASSIGNED_SPEAKER, 2_100_000, 2_900_000, "new guess")],
        1_000_000,
        4_000_000,
    );
    let texts: Vec<&str> = session.turns.iter().map(|t| t.text.as_str()).collect();
    assert_eq!(texts, vec!["new guess", "outside"]);
    assert!(session.turns.iter().all(|t| t.speaker == UNASSIGNED_SPEAKER));
    let speakers: Vec<u8> = session.segments.iter().map(|s| s.speaker).collect();
    assert_eq!(speakers, vec![UNASSIGNED_SPEAKER, UNASSIGNED_SPEAKER]);
}
