//! Speaker ids and what they are called and shown as.
use std::collections::BTreeMap;
use vstd::prelude::*;

use crate::chars::{decimal, push_decimal};
use crate::text::{clean_line, one_line};

verus! {

/// The microphone speaker of a live session.
pub const ME: u8 = 8;

/// Speech where voices overlap.
pub const OVERLAP_SPEAKER: u8 = 254;

/// Speech that could not be attributed.
pub const UNASSIGNED_SPEAKER: u8 = 255;

/// The name a speaker has until someone renames it.
pub open spec fn default_name(speaker: u8) -> Seq<char> {
    if speaker == ME {
        "Me"@
    } else if speaker == OVERLAP_SPEAKER {
        "Overlap"@
    } else if speaker == UNASSIGNED_SPEAKER {
        "Unassigned"@
    } else {
        "Speaker "@ + decimal((speaker + 1) as nat)
    }
}

/// "Me", "Overlap", "Unassigned", or "Speaker n" counted from one.
pub fn default_speaker_name(speaker: u8) -> (r: String)
    ensures
        r@ == default_name(speaker),
{
    if speaker == ME {
        String::from_str("Me")
    } else if speaker == OVERLAP_SPEAKER {
        String::from_str("Overlap")
    } else if speaker == UNASSIGNED_SPEAKER {
        String::from_str("Unassigned")
    } else {
        let mut s = String::from_str("Speaker ");
        push_decimal(&mut s, (speaker + 1) as u64);
        s
    }
}

/// The name kept when someone renames a speaker.
pub open spec fn clean_name_spec(value: Seq<char>, speaker: u8) -> Seq<char> {
    let t = one_line(value, 160);
    if t.len() == 0 {
        default_name(speaker)
    } else {
        t
    }
}

/// A speaker name as typed: trimmed, line breaks turned into spaces, at
/// most 160 characters, and the speaker's default name where nothing is
/// left.
pub fn clean_name(value: &str, speaker: u8) -> (r: String)
    ensures
        r@ == clean_name_spec(value@, speaker),
{
    let t = clean_line(value, 160);
    if t.as_str().unicode_len() == 0 {
        default_speaker_name(speaker)
    } else {
        t
    }
}

/// Whether a speaker's lines count in copies and exports when the first
/// `max_speakers` numbered speakers are shown: "Me", "Overlap" and
/// "Unassigned" always do.
pub open spec fn is_counted(speaker: u8, max_speakers: u8) -> bool {
    speaker == ME || speaker == OVERLAP_SPEAKER || speaker == UNASSIGNED_SPEAKER || speaker
        < max_speakers
}

pub fn counted_speaker(speaker: u8, max_speakers: u8) -> (r: bool)
    ensures
        r == is_counted(speaker, max_speakers),
{
    speaker == ME || speaker == OVERLAP_SPEAKER || speaker == UNASSIGNED_SPEAKER || speaker
        < max_speakers
}

/// Whether a speaker's activity is painted on the waveform: "Overlap" and
/// "Unassigned" always are, "Me" has its own lane.
pub open spec fn is_shown_in_wave(speaker: u8, max_speakers: u8) -> bool {
    speaker == OVERLAP_SPEAKER || speaker == UNASSIGNED_SPEAKER || speaker < max_speakers
}

pub fn shown_in_wave(speaker: u8, max_speakers: u8) -> (r: bool)
    ensures
        r == is_shown_in_wave(speaker, max_speakers),
{
    speaker == OVERLAP_SPEAKER || speaker == UNASSIGNED_SPEAKER || speaker < max_speakers
}

/// Whether a speaker has a lane and transcript lines on screen: "Me",
/// "Overlap" and "Unassigned" always (earlier microphone speech stays
/// visible after the microphone is turned off), numbered speakers up to
/// `max_speakers`.
pub open spec fn is_visible(speaker: u8, max_speakers: u8) -> bool {
    if speaker == ME || speaker == OVERLAP_SPEAKER || speaker == UNASSIGNED_SPEAKER {
        true
    } else {
        speaker < max_speakers
    }
}

pub fn visible(speaker: u8, max_speakers: u8) -> (r: bool)
    ensures
        r == is_visible(speaker, max_speakers),
{
    if speaker == ME || speaker == OVERLAP_SPEAKER || speaker == UNASSIGNED_SPEAKER {
        true
    } else {
        speaker < max_speakers
    }
}

/// The colour of the eight numbered voices, cycling.
pub open spec fn palette(i: int) -> (u8, u8, u8) {
    if i == 0 {
        (85, 230, 238)
    } else if i == 1 {
        (168, 92, 255)
    } else if i == 2 {
        (255, 138, 61)
    } else if i == 3 {
        (245, 196, 66)
    } else if i == 4 {
        (255, 99, 132)
    } else if i == 5 {
        (106, 166, 255)
    } else if i == 6 {
        (186, 230, 72)
    } else {
        (255, 90, 196)
    }
}

/// A speaker's colour as red, green and blue.
pub open spec fn voice_rgb(speaker: u8) -> (u8, u8, u8) {
    if speaker == ME {
        (255, 244, 214)
    } else if speaker == OVERLAP_SPEAKER {
        (255, 186, 120)
    } else if speaker == UNASSIGNED_SPEAKER {
        (150, 156, 176)
    } else {
        palette((speaker % 8) as int)
    }
}

pub fn voice_color(speaker: u8) -> (r: (u8, u8, u8))
    ensures
        r == voice_rgb(speaker),
{
    if speaker == ME {
        (255, 244, 214)
    } else if speaker == OVERLAP_SPEAKER {
        (255, 186, 120)
    } else if speaker == UNASSIGNED_SPEAKER {
        (150, 156, 176)
    } else {
        let i = speaker % 8;
        if i == 0 {
            (85, 230, 238)
        } else if i == 1 {
            (168, 92, 255)
        } else if i == 2 {
            (255, 138, 61)
        } else if i == 3 {
            (245, 196, 66)
        } else if i == 4 {
            (255, 99, 132)
        } else if i == 5 {
            (106, 166, 255)
        } else if i == 6 {
            (186, 230, 72)
        } else {
            (255, 90, 196)
        }
    }
}

/// The CSS colour `rgb(r, g, b)` of a speaker.
pub open spec fn css_color_spec(speaker: u8) -> Seq<char> {
    let (r, g, b) = voice_rgb(speaker);
    "rgb("@ + decimal(r as nat) + ", "@ + decimal(g as nat) + ", "@ + decimal(b as nat) + ")"@
}

pub fn css_color(speaker: u8) -> (s: String)
    ensures
        s@ == css_color_spec(speaker),
{
    let (r, g, b) = voice_color(speaker);
    let mut s = String::from_str("rgb(");
    push_decimal(&mut s, r as u64);
    s.append(", ");
    push_decimal(&mut s, g as u64);
    s.append(", ");
    push_decimal(&mut s, b as u64);
    s.append(")");
    s
}

/// The label a person gave a speaker.
pub struct SpeakerInfo {
    pub name: String,
}

/// The names of a session's speakers, at most one per speaker id.
pub struct Speakers {
    names: BTreeMap<u8, SpeakerInfo>,
}

impl View for Speakers {
    type V = Map<u8, Seq<char>>;

    closed spec fn view(&self) -> Map<u8, Seq<char>> {
        self.names@.map_values(|info: SpeakerInfo| info.name@)
    }
}

impl Speakers {
    /// Renames `speaker` to what was typed, cleaned as `clean_name` does.
    pub fn rename(&mut self, speaker: u8, typed: &str)
        ensures
            final(self)@ == old(self)@.insert(speaker, clean_name_spec(typed@, speaker)),
    {
        let name = clean_name(typed, speaker);
        self.insert(speaker, SpeakerInfo { name });
    }

    /// No names yet.
    pub fn new() -> (r: Speakers)
        ensures
            r@ == Map::<u8, Seq<char>>::empty(),
    {
        let r = Speakers { names: BTreeMap::new() };
        assert(r@ =~= Map::<u8, Seq<char>>::empty());
        r
    }

    /// The name given to `speaker`, if any.
    pub fn get(&self, speaker: u8) -> (r: Option<&SpeakerInfo>)
        ensures
            match r {
                Some(info) => self@.contains_key(speaker) && info.name@ == self@[speaker],
                None => !self@.contains_key(speaker),
            },
    {
        broadcast use vstd::std_specs::btree::group_btree_axioms, vstd::laws_cmp::group_laws_cmp;

        self.names.get(&speaker)
    }

    /// Whether `speaker` has a name.
    pub fn contains(&self, speaker: u8) -> (r: bool)
        ensures
            r == self@.contains_key(speaker),
    {
        broadcast use vstd::std_specs::btree::group_btree_axioms, vstd::laws_cmp::group_laws_cmp;

        self.names.contains_key(&speaker)
    }

    /// Names `speaker`, replacing any earlier name.
    pub fn insert(&mut self, speaker: u8, info: SpeakerInfo)
        ensures
            final(self)@ == old(self)@.insert(speaker, info.name@),
    {
        broadcast use vstd::std_specs::btree::group_btree_axioms, vstd::laws_cmp::group_laws_cmp;

        let ghost before = self.names@;
        let ghost name = info.name@;
        self.names.insert(speaker, info);
        assert(self@ =~= before.map_values(|i: SpeakerInfo| i.name@).insert(speaker, name));
    }

    /// Each named speaker and its name, in increasing order of speaker.
    pub fn entries(&self) -> (r: Vec<(u8, String)>)
        ensures
            forall|i: int, j: int| 0 <= i < j < r@.len() ==> r@[i].0 < r@[j].0,
            forall|k: u8| self@.contains_key(k) <==> exists|i: int| 0 <= i < r@.len() && r@[i].0 == k,
            forall|i: int| 0 <= i < r@.len() ==> #[trigger] self@[r@[i].0] == r@[i].1@,
    {
        let mut out: Vec<(u8, String)> = Vec::new();
        let mut k: u16 = 0;
        while k < 256
            invariant
                k <= 256,
                forall|i: int, j: int| 0 <= i < j < out@.len() ==> out@[i].0 < out@[j].0,
                forall|i: int| 0 <= i < out@.len() ==> out@[i].0 < k,
                forall|x: u8|
                    x < k ==> (self@.contains_key(x) <==> exists|i: int|
                        0 <= i < out@.len() && out@[i].0 == x),
                forall|i: int|
                    0 <= i < out@.len() ==> self@.contains_key(out@[i].0) && #[trigger] self@[out@[i].0]
                        == out@[i].1@,
            decreases 256 - k,
        {
            let id = k as u8;
            match self.get(id) {
                Some(info) => {
                    let ghost before = out@;
                    out.push((id, info.name.clone()));
                    assert forall|x: u8| x < k + 1 implies (self@.contains_key(x) <==> exists|i: int|
                        0 <= i < out@.len() && out@[i].0 == x) by {
                        if x < k {
                            if exists|i: int| 0 <= i < before.len() && before[i].0 == x {
                                let i = choose|i: int| 0 <= i < before.len() && before[i].0 == x;
                                assert(out@[i] == before[i]);
                            }
                        } else {
                            assert(out@[before.len() as int].0 == x);
                        }
                    }
                },
                None => {},
            }
            k = k + 1;
        }
        out
    }
}

} // verus!
