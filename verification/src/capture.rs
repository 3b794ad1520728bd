//! The decisions of the live-capture loop: which samples wait to be sent
//! to the speech engine, when they go, and how the microphone track is
//! kept on the session clock.
use vstd::prelude::*;

use crate::session::Session;
use crate::speakers::{SpeakerInfo, ME};
use crate::studio::{live_start_note, live_start_note_spec};
use crate::wav::{flush_live_pcm, live_pcm_fits, live_pcm_text, LivePcm};

verus! {

/// Samples waiting to be sent live: at most this many before they go.
pub const SEND_BATCH: usize = 4000;

/// Milliseconds that samples may wait before they go.
pub const SEND_EVERY_MS: u64 = 50;

/// Samples that wait to be sent, per track, and whether the microphone is
/// being recorded.
pub struct LiveBuffers {
    pub mic_on: bool,
    pub desktop: Vec<i16>,
    pub mic: Vec<i16>,
}

impl LiveBuffers {
    /// Nothing waiting yet.
    pub fn new(mic_on: bool) -> (r: LiveBuffers)
        ensures
            r.mic_on == mic_on,
            r.desktop@.len() == 0,
            r.mic@.len() == 0,
    {
        LiveBuffers { mic_on, desktop: Vec::new(), mic: Vec::new() }
    }

    /// Queues desktop samples that were written to the desktop track.
    pub fn add_desktop(&mut self, pcm: &[i16])
        ensures
            final(self).desktop@ == old(self).desktop@ + pcm@,
            final(self).mic == old(self).mic,
            final(self).mic_on == old(self).mic_on,
    {
        let mut i: usize = 0;
        while i < pcm.len()
            invariant
                i <= pcm@.len(),
                self.desktop@ == old(self).desktop@ + pcm@.take(i as int),
                self.mic == old(self).mic,
                self.mic_on == old(self).mic_on,
            decreases pcm.len() - i,
        {
            self.desktop.push(pcm[i]);
            assert(pcm@.take(i + 1) =~= pcm@.take(i as int).push(pcm@[i as int]));
            i = i + 1;
        }
        assert(pcm@.take(pcm@.len() as int) =~= pcm@);
    }

    /// Queues microphone samples that were written to the microphone track.
    pub fn add_mic(&mut self, pcm: &[i16])
        ensures
            final(self).mic@ == old(self).mic@ + pcm@,
            final(self).desktop == old(self).desktop,
            final(self).mic_on == old(self).mic_on,
    {
        let mut i: usize = 0;
        while i < pcm.len()
            invariant
                i <= pcm@.len(),
                self.mic@ == old(self).mic@ + pcm@.take(i as int),
                self.desktop == old(self).desktop,
                self.mic_on == old(self).mic_on,
            decreases pcm.len() - i,
        {
            self.mic.push(pcm[i]);
            assert(pcm@.take(i + 1) =~= pcm@.take(i as int).push(pcm@[i as int]));
            i = i + 1;
        }
        assert(pcm@.take(pcm@.len() as int) =~= pcm@);
    }

    /// Whether nothing waits.
    pub fn is_empty(&self) -> (r: bool)
        ensures
            r == (self.desktop@.len() == 0 && self.mic@.len() == 0),
    {
        self.desktop.len() == 0 && self.mic.len() == 0
    }

    /// Whether the waiting samples are due: `waited_ms` since the last
    /// send, or enough of them together.
    pub fn due(&self, waited_ms: u64) -> (r: bool)
        ensures
            r == (waited_ms >= SEND_EVERY_MS || self.desktop@.len() + self.mic@.len() >= SEND_BATCH),
    {
        waited_ms >= SEND_EVERY_MS || self.desktop.len() >= SEND_BATCH || self.mic.len() >= SEND_BATCH
            - self.desktop.len()
    }

}

/// How far the microphone track is behind the desktop track, in samples.
pub open spec fn mic_gap_spec(desktop_samples: u32, mic_samples: u32) -> int {
    if desktop_samples > mic_samples {
        desktop_samples - mic_samples
    } else {
        0
    }
}

/// Samples of silence that put the microphone track level with the desktop
/// track when the microphone is turned back on.
pub fn mic_gap(desktop_samples: u32, mic_samples: u32) -> (r: u32)
    ensures
        r == mic_gap_spec(desktop_samples, mic_samples),
{
    if desktop_samples > mic_samples {
        desktop_samples - mic_samples
    } else {
        0
    }
}

/// What happens to the live-capture loop: packets from the devices, the
/// outcome of what it asked to be done, the switch of the microphone, and
/// the clock.
pub enum CaptureEvent {
    /// Desktop samples arrived.
    Desktop(Vec<i16>),
    /// Desktop samples were written to the desktop track.
    DesktopWritten(Vec<i16>),
    /// Microphone samples arrived.
    Mic(Vec<i16>),
    /// Microphone samples were written to the microphone track.
    MicWritten(Vec<i16>),
    /// The microphone was turned on. `mic_samples` is the length of the
    /// microphone track, or none where no track is open yet.
    MicOn { desktop_samples: u32, mic_samples: Option<u32> },
    /// A microphone track was opened; it is empty.
    MicOpened { desktop_samples: u32 },
    /// No microphone track could be opened.
    MicOpenFailed,
    /// Silence of this many samples was written to the microphone track.
    MicPadded(u32),
    /// The microphone was turned off.
    MicOff,
    /// Nothing arrived while samples waited.
    Timeout,
    /// A packet was handled, `waited_ms` after the last send.
    Tick { waited_ms: u64 },
    /// The devices are gone: the recording ends.
    Closed,
}

/// What the live-capture loop asks to be done, in order.
pub enum CaptureAction {
    WriteDesktop(Vec<i16>),
    WriteMic(Vec<i16>),
    /// Create an empty microphone track.
    OpenMicTrack,
    /// Write this many samples of silence to the microphone track.
    PadMic(u32),
    /// Hand a batch to the speech engine.
    Send(LivePcm),
    /// Tell the speech engine that the microphone track was padded.
    SendMicPad(u32),
    /// Count the time since the last send from now.
    RestartClock,
}

/// An action by what it holds.
pub enum ActionView {
    WriteDesktop(Seq<i16>),
    WriteMic(Seq<i16>),
    OpenMicTrack,
    PadMic(u32),
    Send(Seq<char>, Seq<char>),
    SendMicPad(u32),
    RestartClock,
}

pub open spec fn action_view(a: CaptureAction) -> ActionView {
    match a {
        CaptureAction::WriteDesktop(p) => ActionView::WriteDesktop(p@),
        CaptureAction::WriteMic(p) => ActionView::WriteMic(p@),
        CaptureAction::OpenMicTrack => ActionView::OpenMicTrack,
        CaptureAction::PadMic(n) => ActionView::PadMic(n),
        CaptureAction::Send(b) => ActionView::Send(b.source@, b.pcm@),
        CaptureAction::SendMicPad(n) => ActionView::SendMicPad(n),
        CaptureAction::RestartClock => ActionView::RestartClock,
    }
}

pub open spec fn actions_view(s: Seq<CaptureAction>) -> Seq<ActionView> {
    s.map_values(|a: CaptureAction| action_view(a))
}

/// The batches that hand over what waits: the desktop's, then the
/// microphone's, each only where something waits.
pub open spec fn sends(desktop: Seq<i16>, mic: Seq<i16>) -> Seq<ActionView> {
    (if desktop.len() > 0 {
        seq![ActionView::Send("desktop"@, live_pcm_text(desktop))]
    } else {
        Seq::empty()
    }) + (if mic.len() > 0 {
        seq![ActionView::Send("mic"@, live_pcm_text(mic))]
    } else {
        Seq::empty()
    })
}

/// Padding of `gap` samples, where there is a gap.
pub open spec fn padding(gap: int) -> Seq<ActionView> {
    if gap > 0 {
        seq![ActionView::PadMic(gap as u32)]
    } else {
        Seq::empty()
    }
}

/// Whether what waits is due: 50 ms since the last send, or 4000 samples
/// together.
pub open spec fn is_due(waited_ms: u64, desktop: Seq<i16>, mic: Seq<i16>) -> bool {
    waited_ms >= SEND_EVERY_MS || desktop.len() + mic.len() >= SEND_BATCH
}

/// Whether the event hands over everything that waits.
pub open spec fn flushes(ev: CaptureEvent, desktop: Seq<i16>, mic: Seq<i16>) -> bool {
    match ev {
        CaptureEvent::MicOn { .. } | CaptureEvent::MicOff | CaptureEvent::Timeout
        | CaptureEvent::Closed => true,
        CaptureEvent::Tick { waited_ms } => is_due(waited_ms, desktop, mic),
        _ => false,
    }
}

/// The actions for event `ev` when the microphone is `mic_on` and `desktop`
/// and `mic` wait to be sent. Whatever waits is always sent before the
/// microphone track is opened or padded.
pub open spec fn step_actions(mic_on: bool, desktop: Seq<i16>, mic: Seq<i16>, ev: CaptureEvent) -> Seq<
    ActionView,
> {
    match ev {
        CaptureEvent::Desktop(p) => seq![ActionView::WriteDesktop(p@)],
        CaptureEvent::DesktopWritten(_) => Seq::empty(),
        CaptureEvent::Mic(p) => if mic_on {
            seq![ActionView::WriteMic(p@)]
        } else {
            Seq::empty()
        },
        CaptureEvent::MicWritten(_) => Seq::empty(),
        CaptureEvent::MicOn { desktop_samples, mic_samples } => sends(desktop, mic) + match mic_samples {
            Some(m) => padding(mic_gap_spec(desktop_samples, m)),
            None => seq![ActionView::OpenMicTrack],
        } + seq![ActionView::RestartClock],
        CaptureEvent::MicOpened { desktop_samples } => padding(mic_gap_spec(desktop_samples, 0)),
        CaptureEvent::MicOpenFailed => Seq::empty(),
        CaptureEvent::MicPadded(n) => seq![ActionView::SendMicPad(n)],
        CaptureEvent::MicOff => sends(desktop, mic) + seq![ActionView::RestartClock],
        CaptureEvent::Timeout => sends(desktop, mic) + seq![ActionView::RestartClock],
        CaptureEvent::Tick { waited_ms } => if is_due(waited_ms, desktop, mic) {
            sends(desktop, mic) + seq![ActionView::RestartClock]
        } else {
            Seq::empty()
        },
        CaptureEvent::Closed => sends(desktop, mic),
    }
}

/// Whether the microphone is recorded after event `ev`: it is once its
/// track is open after being turned on, and not once turned off or once no
/// track could be opened.
pub open spec fn step_mic_on(mic_on: bool, ev: CaptureEvent) -> bool {
    match ev {
        CaptureEvent::MicOn { mic_samples, .. } => mic_samples is Some,
        CaptureEvent::MicOpened { .. } => true,
        CaptureEvent::MicOpenFailed | CaptureEvent::MicOff => false,
        _ => mic_on,
    }
}

/// The desktop samples that wait after event `ev`.
pub open spec fn step_desktop(desktop: Seq<i16>, mic: Seq<i16>, ev: CaptureEvent) -> Seq<i16> {
    if flushes(ev, desktop, mic) {
        Seq::empty()
    } else {
        match ev {
            CaptureEvent::DesktopWritten(p) => desktop + p@,
            _ => desktop,
        }
    }
}

/// The microphone samples that wait after event `ev`.
pub open spec fn step_mic(desktop: Seq<i16>, mic: Seq<i16>, ev: CaptureEvent) -> Seq<i16> {
    if flushes(ev, desktop, mic) {
        Seq::empty()
    } else {
        match ev {
            CaptureEvent::MicWritten(p) => mic + p@,
            _ => mic,
        }
    }
}

/// Whether the microphone is recorded, and what waits from the desktop and
/// from the microphone, after the events `evs` from the state `mic_on`,
/// `desktop`, `mic`.
pub open spec fn run_state(mic_on: bool, desktop: Seq<i16>, mic: Seq<i16>, evs: Seq<CaptureEvent>) -> (
    bool,
    Seq<i16>,
    Seq<i16>,
)
    decreases evs.len(),
{
    if evs.len() == 0 {
        (mic_on, desktop, mic)
    } else {
        let s = run_state(mic_on, desktop, mic, evs.drop_last());
        let ev = evs.last();
        (step_mic_on(s.0, ev), step_desktop(s.1, s.2, ev), step_mic(s.1, s.2, ev))
    }
}

/// The actions asked for, in order, over the events `evs`.
pub open spec fn run_actions(
    mic_on: bool,
    desktop: Seq<i16>,
    mic: Seq<i16>,
    evs: Seq<CaptureEvent>,
) -> Seq<ActionView>
    decreases evs.len(),
{
    if evs.len() == 0 {
        Seq::empty()
    } else {
        let s = run_state(mic_on, desktop, mic, evs.drop_last());
        run_actions(mic_on, desktop, mic, evs.drop_last()) + step_actions(s.0, s.1, s.2, evs.last())
    }
}

/// The desktop samples handed over over the events `evs`, batch by batch.
pub open spec fn desktop_batches(
    mic_on: bool,
    desktop: Seq<i16>,
    mic: Seq<i16>,
    evs: Seq<CaptureEvent>,
) -> Seq<Seq<i16>>
    decreases evs.len(),
{
    if evs.len() == 0 {
        Seq::empty()
    } else {
        let s = run_state(mic_on, desktop, mic, evs.drop_last());
        desktop_batches(mic_on, desktop, mic, evs.drop_last()) + if flushes(evs.last(), s.1, s.2)
            && s.1.len() > 0 {
            seq![s.1]
        } else {
            Seq::empty()
        }
    }
}

/// The microphone samples handed over over the events `evs`, batch by
/// batch.
pub open spec fn mic_batches(
    mic_on: bool,
    desktop: Seq<i16>,
    mic: Seq<i16>,
    evs: Seq<CaptureEvent>,
) -> Seq<Seq<i16>>
    decreases evs.len(),
{
    if evs.len() == 0 {
        Seq::empty()
    } else {
        let s = run_state(mic_on, desktop, mic, evs.drop_last());
        mic_batches(mic_on, desktop, mic, evs.drop_last()) + if flushes(evs.last(), s.1, s.2)
            && s.2.len() > 0 {
            seq![s.2]
        } else {
            Seq::empty()
        }
    }
}

/// The microphone packets that arrived while the microphone was recorded.
pub open spec fn recorded_mic_packets(
    mic_on: bool,
    desktop: Seq<i16>,
    mic: Seq<i16>,
    evs: Seq<CaptureEvent>,
) -> Seq<Seq<i16>>
    decreases evs.len(),
{
    if evs.len() == 0 {
        Seq::empty()
    } else {
        let s = run_state(mic_on, desktop, mic, evs.drop_last());
        recorded_mic_packets(mic_on, desktop, mic, evs.drop_last()) + match evs.last() {
            CaptureEvent::Mic(p) => if s.0 {
                seq![p@]
            } else {
                Seq::empty()
            },
            _ => Seq::empty(),
        }
    }
}

/// The desktop samples written to the desktop track, in order.
pub open spec fn written_desktop(evs: Seq<CaptureEvent>) -> Seq<i16>
    decreases evs.len(),
{
    if evs.len() == 0 {
        Seq::empty()
    } else {
        written_desktop(evs.drop_last()) + match evs.last() {
            CaptureEvent::DesktopWritten(p) => p@,
            _ => Seq::empty(),
        }
    }
}

/// The microphone samples written to the microphone track, in order.
pub open spec fn written_mic(evs: Seq<CaptureEvent>) -> Seq<i16>
    decreases evs.len(),
{
    if evs.len() == 0 {
        Seq::empty()
    } else {
        written_mic(evs.drop_last()) + match evs.last() {
            CaptureEvent::MicWritten(p) => p@,
            _ => Seq::empty(),
        }
    }
}

/// The texts of the batches sent for `source`, in order.
pub open spec fn sent_texts(acts: Seq<ActionView>, source: Seq<char>) -> Seq<Seq<char>>
    decreases acts.len(),
{
    if acts.len() == 0 {
        Seq::empty()
    } else {
        sent_texts(acts.drop_last(), source) + match acts.last() {
            ActionView::Send(src, t) => if src == source {
                seq![t]
            } else {
                Seq::empty()
            },
            _ => Seq::empty(),
        }
    }
}

/// The packets asked to be written to the microphone track, in order.
pub open spec fn mic_writes(acts: Seq<ActionView>) -> Seq<Seq<i16>>
    decreases acts.len(),
{
    if acts.len() == 0 {
        Seq::empty()
    } else {
        mic_writes(acts.drop_last()) + match acts.last() {
            ActionView::WriteMic(p) => seq![p],
            _ => Seq::empty(),
        }
    }
}

/// The texts of the batches `bs`, as they go out.
pub open spec fn batch_texts(bs: Seq<Seq<i16>>) -> Seq<Seq<char>> {
    bs.map_values(|b: Seq<i16>| live_pcm_text(b))
}

/// The batches one after another.
pub open spec fn joined(batches: Seq<Seq<i16>>) -> Seq<i16>
    decreases batches.len(),
{
    if batches.len() == 0 {
        Seq::empty()
    } else {
        joined(batches.drop_last()) + batches.last()
    }
}

fn push_action(out: &mut Vec<CaptureAction>, a: CaptureAction)
    ensures
        actions_view(final(out)@) == actions_view(old(out)@).push(action_view(a)),
{
    let ghost before = out@;
    out.push(a);
    assert(actions_view(out@) =~= actions_view(before).push(action_view(a)));
}

/// Appends the batches of what waits and empties both queues.
fn send_waiting(live: &mut LiveBuffers, out: &mut Vec<CaptureAction>)
    requires
        live_pcm_fits(old(live).desktop@.len()),
        live_pcm_fits(old(live).mic@.len()),
    ensures
        actions_view(final(out)@) == actions_view(old(out)@) + sends(old(live).desktop@, old(live).mic@),
        final(live).desktop@.len() == 0,
        final(live).mic@.len() == 0,
        final(live).mic_on == old(live).mic_on,
{
    let ghost d = live.desktop@;
    let ghost m = live.mic@;
    let ghost start = actions_view(out@);
    let mut batches = flush_live_pcm(&mut live.desktop, &mut live.mic);
    let ghost b = batches@;
    let ghost want = sends(d, m);
    assert(want.len() == b.len());
    assert forall|k: int| 0 <= k < b.len() implies want[k] == ActionView::Send(
        #[trigger] b[k].source@,
        b[k].pcm@,
    ) by {
        if d.len() > 0 && m.len() > 0 && k == 1 {
            assert(b[k] == b.last());
        }
        if d.len() == 0 {
            assert(b[k] == b.last());
        }
    }
    let mut k: usize = 0;
    while batches.len() > 0
        invariant
            batches@ == b.skip(k as int),
            k <= b.len(),
            b.len() <= 2,
            want.len() == b.len(),
            forall|j: int| 0 <= j < b.len() ==> want[j] == ActionView::Send(
                #[trigger] b[j].source@,
                b[j].pcm@,
            ),
            actions_view(out@) == start + want.take(k as int),
        decreases batches.len(),
    {
        let x = batches.remove(0);
        assert(x == b[k as int]);
        assert(batches@ =~= b.skip(k + 1));
        push_action(out, CaptureAction::Send(x));
        assert(want.take(k + 1) =~= want.take(k as int).push(want[k as int]));
        k = k + 1;
    }
    assert(want.take(k as int) =~= want);
}

/// Decides what the live-capture loop does on event `ev`, and what then
/// waits to be sent. Packets are written to their tracks (the
/// microphone's only while it is recorded) and queued once written; what
/// waits goes out when it is due, when nothing arrives, when the
/// microphone is switched, and once more when the recording ends. Turning
/// the microphone on sends what waits first, then opens its track if there
/// is none and pads it with silence up to the desktop track.
pub fn capture_step(live: &mut LiveBuffers, ev: CaptureEvent) -> (r: Vec<CaptureAction>)
    requires
        live_pcm_fits(old(live).desktop@.len()),
        live_pcm_fits(old(live).mic@.len()),
    ensures
        actions_view(r@) == step_actions(old(live).mic_on, old(live).desktop@, old(live).mic@, ev),
        final(live).mic_on == step_mic_on(old(live).mic_on, ev),
        final(live).desktop@ == step_desktop(old(live).desktop@, old(live).mic@, ev),
        final(live).mic@ == step_mic(old(live).desktop@, old(live).mic@, ev),
{
    let mut out: Vec<CaptureAction> = Vec::new();
    assert(actions_view(out@) =~= Seq::<ActionView>::empty());
    let ghost d = live.desktop@;
    let ghost m = live.mic@;
    match ev {
        CaptureEvent::Desktop(p) => {
            push_action(&mut out, CaptureAction::WriteDesktop(p));
        },
        CaptureEvent::DesktopWritten(p) => {
            live.add_desktop(p.as_slice());
        },
        CaptureEvent::Mic(p) => {
            if live.mic_on {
                push_action(&mut out, CaptureAction::WriteMic(p));
            }
        },
        CaptureEvent::MicWritten(p) => {
            live.add_mic(p.as_slice());
        },
        CaptureEvent::MicOn { desktop_samples, mic_samples } => {
            send_waiting(live, &mut out);
            match mic_samples {
                Some(n) => {
                    let gap = mic_gap(desktop_samples, n);
                    if gap > 0 {
                        push_action(&mut out, CaptureAction::PadMic(gap));
                    }
                    live.mic_on = true;
                },
                None => {
                    push_action(&mut out, CaptureAction::OpenMicTrack);
                    live.mic_on = false;
                },
            }
            push_action(&mut out, CaptureAction::RestartClock);
        },
        CaptureEvent::MicOpened { desktop_samples } => {
            let gap = mic_gap(desktop_samples, 0);
            if gap > 0 {
                push_action(&mut out, CaptureAction::PadMic(gap));
            }
            live.mic_on = true;
        },
        CaptureEvent::MicOpenFailed => {
            live.mic_on = false;
        },
        CaptureEvent::MicPadded(n) => {
            push_action(&mut out, CaptureAction::SendMicPad(n));
        },
        CaptureEvent::MicOff => {
            send_waiting(live, &mut out);
            live.mic_on = false;
            push_action(&mut out, CaptureAction::RestartClock);
        },
        CaptureEvent::Timeout => {
            send_waiting(live, &mut out);
            push_action(&mut out, CaptureAction::RestartClock);
        },
        CaptureEvent::Tick { waited_ms } => {
            if live.due(waited_ms) {
                send_waiting(live, &mut out);
                push_action(&mut out, CaptureAction::RestartClock);
            }
        },
        CaptureEvent::Closed => {
            send_waiting(live, &mut out);
        },
    }
    proof {
        let want = step_actions(old(live).mic_on, d, m, ev);
        assert(actions_view(out@) =~= want);
        assert(live.desktop@ =~= step_desktop(d, m, ev));
        assert(live.mic@ =~= step_mic(d, m, ev));
    }
    out
}

/// Makes a new session a live one: its audio goes to `audio.wav`, its status
/// is "live", its note names the capture devices, and "Me" is named when
/// the microphone is on.
pub fn begin_live(session: &mut Session, mic_enabled: bool, desktop: &str, mic: &str)
    ensures
        final(session).visual@ == "audio"@,
        final(session).media_file@ == "audio.wav"@,
        final(session).status@ == "live"@,
        final(session).message@ == live_start_note_spec(mic_enabled, desktop@, mic@),
        mic_enabled ==> final(session).speakers@ == old(session).speakers@.insert(ME, "Me"@),
        !mic_enabled ==> final(session).speakers == old(session).speakers,
        final(session).id == old(session).id,
        final(session).title == old(session).title,
        final(session).created_at == old(session).created_at,
        final(session).kind == old(session).kind,
        final(session).duration == old(session).duration,
        final(session).segments == old(session).segments,
        final(session).turns == old(session).turns,
        final(session).max_speakers == old(session).max_speakers,
{
    session.visual = String::from_str("audio");
    session.media_file = String::from_str("audio.wav");
    session.status = String::from_str("live");
    session.message = live_start_note(mic_enabled, desktop, mic);
    if mic_enabled {
        session.speakers.insert(ME, SpeakerInfo { name: String::from_str("Me") });
    }
}

} // verus!
