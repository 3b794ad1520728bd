//! The stand-alone HTML page of a transcript, with names, colours and
//! portraits, that can be sent to someone.
use vstd::prelude::*;

use crate::chars::{decimal, push_decimal};
use crate::merge::{sort_by_start, sort_turns, turn_start};
use crate::outside::{base64_encode, base64_fits, base64_standard};
use crate::session::{copy_turn, Session, Turn};
use crate::speakers::{
    counted_speaker, css_color, css_color_spec, default_name, default_speaker_name, is_counted,
    Speakers,
};
use crate::text::{escaped, push_escaped};
use crate::transcript::stamp_spec;

verus! {

/// A speaker's picture: PNG bytes.
pub struct Portrait {
    pub speaker: u8,
    pub png: Vec<u8>,
}

/// The page's style sheet.
pub open spec fn page_style() -> Seq<char> {
    "body{margin:0;background:#080b18;color:#f3f1ff;font:16px/1.45 'Segoe UI',sans-serif}main{max-width:820px;margin:0 auto;padding:32px 20px 64px}h1{font-size:28px;margin:0 0 8px} .sub{color:#6e7494;margin:0 0 28px}.people{display:flex;flex-wrap:wrap;gap:12px;margin:0 0 28px}.person{display:flex;align-items:center;gap:8px;color:#a5a9c3}img, .dot{width:42px;height:42px;border-radius:21px;object-fit:cover;flex:0 0 auto}.line{display:grid;grid-template-columns:42px 1fr;gap:12px;padding:12px 0;border-top:1px solid #34375a}.who{font-weight:700} .when{float:right;color:#6e7494;font-size:12px;font-weight:400}p{margin:4px 0 0}"@
}

/// A speaker's label on the page: the given name, or the default one.
pub open spec fn label(names: Map<u8, Seq<char>>, speaker: u8) -> Seq<char> {
    if names.contains_key(speaker) {
        names[speaker]
    } else {
        default_name(speaker)
    }
}

/// The first picture of `speaker`.
pub open spec fn picture_of(portraits: Seq<Portrait>, speaker: u8) -> Option<Seq<u8>>
    decreases portraits.len(),
{
    if portraits.len() == 0 {
        None
    } else if portraits[0].speaker == speaker {
        Some(portraits[0].png@)
    } else {
        picture_of(portraits.drop_first(), speaker)
    }
}

/// A speaker's picture as an embedded image, or a dot in their colour.
pub open spec fn portrait_spec(portraits: Seq<Portrait>, speaker: u8) -> Seq<char> {
    match picture_of(portraits, speaker) {
        Some(png) => "<img alt=\"\" src=\"data:image/png;base64,"@ + base64_standard(png) + "\">"@,
        None => "<span class=\"dot\" style=\"background:"@ + css_color_spec(speaker) + "\"></span>"@,
    }
}

/// A speaker in the list of people.
pub open spec fn person_spec(
    portraits: Seq<Portrait>,
    names: Map<u8, Seq<char>>,
    speaker: u8,
) -> Seq<char> {
    "<div class=\"person\">"@ + portrait_spec(portraits, speaker) + "<span style=\"color:"@
        + css_color_spec(speaker) + "\">"@ + escaped(label(names, speaker)) + "</span></div>"@
}

/// A transcript line on the page.
pub open spec fn line_spec(portraits: Seq<Portrait>, names: Map<u8, Seq<char>>, t: Turn) -> Seq<char> {
    "<article class=\"line\">"@ + portrait_spec(portraits, t.speaker)
        + "<div><div class=\"who\" style=\"color:"@ + css_color_spec(t.speaker) + "\">"@ + escaped(
        label(names, t.speaker),
    ) + "<span class=\"when\">"@ + escaped(stamp_spec(t.start as nat)) + "</span></div><p>"@
        + escaped(t.text@) + "</p></div></article>"@
}

pub open spec fn people_spec(
    portraits: Seq<Portrait>,
    names: Map<u8, Seq<char>>,
    speakers: Seq<u8>,
) -> Seq<char>
    decreases speakers.len(),
{
    if speakers.len() == 0 {
        Seq::empty()
    } else {
        people_spec(portraits, names, speakers.drop_last()) + person_spec(
            portraits,
            names,
            speakers.last(),
        )
    }
}

pub open spec fn lines_spec(
    portraits: Seq<Portrait>,
    names: Map<u8, Seq<char>>,
    turns: Seq<Turn>,
) -> Seq<char>
    decreases turns.len(),
{
    if turns.len() == 0 {
        Seq::empty()
    } else {
        lines_spec(portraits, names, turns.drop_last()) + line_spec(portraits, names, turns.last())
    }
}

/// The lines on the page: those of speakers that count with the first
/// `max_speakers` shown, in order of start time.
pub open spec fn page_turns(turns: Seq<Turn>, max_speakers: u8) -> Seq<Turn> {
    sort_by_start(
        turns.filter(|t: Turn| is_counted(t.speaker, max_speakers)),
        |t: Turn| turn_start(t),
    )
}

pub open spec fn has_speaker(turns: Seq<Turn>, speaker: int) -> bool {
    exists|i: int| 0 <= i < turns.len() && #[trigger] turns[i].speaker == speaker
}

/// The speakers of `turns` below `k`, each once, in increasing order.
pub open spec fn speakers_below(turns: Seq<Turn>, k: int) -> Seq<u8>
    decreases k,
{
    if k <= 0 {
        Seq::empty()
    } else if has_speaker(turns, k - 1) {
        speakers_below(turns, k - 1).push((k - 1) as u8)
    } else {
        speakers_below(turns, k - 1)
    }
}

/// The transcript page of a session with the first `max_speakers` numbered
/// speakers shown.
pub open spec fn page_spec(session: Session, portraits: Seq<Portrait>) -> Seq<char> {
    let turns = page_turns(session.turns@, session.max_speakers);
    let names = session.speakers@;
    let title = escaped(session.title@);
    "<!DOCTYPE html><html lang=\"en\"><head><meta charset=\"utf-8\"><meta name=\"viewport\" content=\"width=device-width, initial-scale=1\"><title>"@
        + title + "</title><style>"@ + page_style() + "</style></head><body><main><h1>"@ + title
        + "</h1><p class=\"sub\">"@ + escaped(decimal(turns.len()) + " lines"@)
        + "</p><div class=\"people\">"@ + people_spec(portraits, names, speakers_below(turns, 256))
        + "</div>"@ + lines_spec(portraits, names, turns) + "</main></body></html>"@
}

/// Whether every picture can be embedded.
pub open spec fn portraits_fit(portraits: Seq<Portrait>) -> bool {
    forall|i: int| 0 <= i < portraits.len() ==> base64_fits(#[trigger] portraits[i].png@.len())
}

fn push_portrait(out: &mut String, portraits: &Vec<Portrait>, speaker: u8)
    requires
        portraits_fit(portraits@),
    ensures
        final(out)@ == old(out)@ + portrait_spec(portraits@, speaker),
{
    let mut i: usize = 0;
    assert(portraits@.skip(0) =~= portraits@);
    while i < portraits.len()
        invariant
            i <= portraits@.len(),
            portraits_fit(portraits@),
            out@ == old(out)@,
            picture_of(portraits@, speaker) == picture_of(portraits@.skip(i as int), speaker),
        decreases portraits.len() - i,
    {
        assert(portraits@.skip(i as int).drop_first() =~= portraits@.skip(i + 1));
        assert(portraits@.skip(i as int)[0] == portraits@[i as int]);
        if portraits[i].speaker == speaker {
            assert(base64_fits(portraits@[i as int].png@.len()));
            let encoded = base64_encode(portraits[i].png.as_slice());
            out.append("<img alt=\"\" src=\"data:image/png;base64,");
            out.append(encoded.as_str());
            out.append("\">");
            assert(out@ =~= old(out)@ + portrait_spec(portraits@, speaker));
            return;
        }
        i = i + 1;
    }
    assert(portraits@.skip(i as int) =~= Seq::<Portrait>::empty());
    out.append("<span class=\"dot\" style=\"background:");
    out.append(css_color(speaker).as_str());
    out.append("\"></span>");
    assert(out@ =~= old(out)@ + portrait_spec(portraits@, speaker));
}

fn label_of(speakers: &Speakers, speaker: u8) -> (r: String)
    ensures
        r@ == label(speakers@, speaker),
{
    match speakers.get(speaker) {
        Some(info) => info.name.clone(),
        None => default_speaker_name(speaker),
    }
}

fn push_person(out: &mut String, portraits: &Vec<Portrait>, speakers: &Speakers, speaker: u8)
    requires
        portraits_fit(portraits@),
    ensures
        final(out)@ == old(out)@ + person_spec(portraits@, speakers@, speaker),
{
    out.append("<div class=\"person\">");
    let ghost a = out@;
    push_portrait(out, portraits, speaker);
    out.append("<span style=\"color:");
    out.append(css_color(speaker).as_str());
    out.append("\">");
    let ghost b = out@;
    push_escaped(out, label_of(speakers, speaker).as_str());
    out.append("</span></div>");
    assert(out@ =~= old(out)@ + person_spec(portraits@, speakers@, speaker));
}

fn push_line(out: &mut String, portraits: &Vec<Portrait>, speakers: &Speakers, t: &Turn)
    requires
        portraits_fit(portraits@),
    ensures
        final(out)@ == old(out)@ + line_spec(portraits@, speakers@, *t),
{
    let ghost o0 = out@;
    out.append("<article class=\"line\">");
    push_portrait(out, portraits, t.speaker);
    let ghost o1 = out@;
    assert(o1 == o0 + "<article class=\"line\">"@ + portrait_spec(portraits@, t.speaker));
    out.append("<div><div class=\"who\" style=\"color:");
    out.append(css_color(t.speaker).as_str());
    out.append("\">");
    let name = label_of(speakers, t.speaker);
    push_escaped(out, name.as_str());
    let ghost o2 = out@;
    assert(o2 == o1 + "<div><div class=\"who\" style=\"color:"@ + css_color_spec(t.speaker)
        + "\">"@ + escaped(label(speakers@, t.speaker)));
    out.append("<span class=\"when\">");
    let stamp = crate::transcript::stamp(t.start);
    push_escaped(out, stamp.as_str());
    out.append("</span></div><p>");
    let ghost o3 = out@;
    assert(o3 == o2 + "<span class=\"when\">"@ + escaped(stamp_spec(t.start as nat))
        + "</span></div><p>"@);
    push_escaped(out, t.text.as_str());
    out.append("</p></div></article>");
    assert(out@ == o3 + escaped(t.text@) + "</p></div></article>"@);
    assert(out@ =~= old(out)@ + line_spec(portraits@, speakers@, *t));
}

fn counted_turns(turns: &Vec<Turn>, max_speakers: u8) -> (r: Vec<Turn>)
    ensures
        r@ == turns@.filter(|t: Turn| is_counted(t.speaker, max_speakers)),
{
    let mut r: Vec<Turn> = Vec::new();
    let mut i: usize = 0;
    while i < turns.len()
        invariant
            i <= turns@.len(),
            r@ == turns@.take(i as int).filter(|t: Turn| is_counted(t.speaker, max_speakers)),
        decreases turns.len() - i,
    {
        let t = &turns[i];
        if counted_speaker(t.speaker, max_speakers) {
            r.push(copy_turn(t));
        }
        proof {
            reveal(Seq::filter);
            assert(turns@.take(i + 1).drop_last() =~= turns@.take(i as int));
            assert(turns@.take(i + 1).last() == turns@[i as int]);
        }
        i = i + 1;
    }
    assert(turns@.take(turns@.len() as int) =~= turns@);
    r
}

fn page_speakers(turns: &Vec<Turn>) -> (r: Vec<u8>)
    ensures
        r@ == speakers_below(turns@, 256),
{
    let mut present: Vec<bool> = Vec::new();
    let mut n: usize = 0;
    while n < 256
        invariant
            n <= 256,
            present@.len() == n,
            forall|k: int| 0 <= k < n ==> !#[trigger] present@[k],
        decreases 256 - n,
    {
        present.push(false);
        n = n + 1;
    }
    let mut i: usize = 0;
    while i < turns.len()
        invariant
            i <= turns@.len(),
            present@.len() == 256,
            forall|k: int|
                0 <= k < 256 ==> (#[trigger] present@[k] <==> has_speaker(turns@.take(i as int), k)),
        decreases turns.len() - i,
    {
        let s = turns[i].speaker;
        present.set(s as usize, true);
        proof {
            let before = turns@.take(i as int);
            let after = turns@.take(i + 1);
            assert forall|k: int| 0 <= k < 256 implies (#[trigger] present@[k] <==> has_speaker(
                after,
                k,
            )) by {
                if has_speaker(before, k) {
                    let m = choose|m: int| 0 <= m < before.len() && #[trigger] before[m].speaker == k;
                    assert(after[m] == before[m]);
                }
                if has_speaker(after, k) {
                    let m = choose|m: int| 0 <= m < after.len() && #[trigger] after[m].speaker == k;
                    if m < i {
                        assert(before[m] == after[m]);
                    }
                }
                if k == s {
                    assert(after[i as int].speaker == s);
                }
            }
        }
        i = i + 1;
    }
    assert(turns@.take(turns@.len() as int) =~= turns@);
    let mut out: Vec<u8> = Vec::new();
    let mut k: usize = 0;
    while k < 256
        invariant
            k <= 256,
            present@.len() == 256,
            forall|j: int| 0 <= j < 256 ==> (#[trigger] present@[j] <==> has_speaker(turns@, j)),
            out@ == speakers_below(turns@, k as int),
        decreases 256 - k,
    {
        if present[k] {
            out.push(k as u8);
        }
        k = k + 1;
    }
    out
}

/// The HTML page of the session's transcript: its title, each speaker once
/// with picture (or coloured dot) and name, then every line of the
/// speakers that count, in order of start time, with picture, name, time
/// stamp and words, all HTML-escaped. `portraits` holds the pictures there
/// are.
pub fn transcript_page(session: &Session, portraits: &Vec<Portrait>) -> (r: String)
    requires
        portraits_fit(portraits@),
    ensures
        r@ == page_spec(*session, portraits@),
{
    let mut turns = counted_turns(&session.turns, session.max_speakers);
    sort_turns(&mut turns);
    let speakers = page_speakers(&turns);
    let mut html = String::from_str(
        "<!DOCTYPE html><html lang=\"en\"><head><meta charset=\"utf-8\"><meta name=\"viewport\" content=\"width=device-width, initial-scale=1\"><title>",
    );
    push_escaped(&mut html, session.title.as_str());
    html.append("</title><style>");
    html.append(
        "body{margin:0;background:#080b18;color:#f3f1ff;font:16px/1.45 'Segoe UI',sans-serif}main{max-width:820px;margin:0 auto;padding:32px 20px 64px}h1{font-size:28px;margin:0 0 8px} .sub{color:#6e7494;margin:0 0 28px}.people{display:flex;flex-wrap:wrap;gap:12px;margin:0 0 28px}.person{display:flex;align-items:center;gap:8px;color:#a5a9c3}img, .dot{width:42px;height:42px;border-radius:21px;object-fit:cover;flex:0 0 auto}.line{display:grid;grid-template-columns:42px 1fr;gap:12px;padding:12px 0;border-top:1px solid #34375a}.who{font-weight:700} .when{float:right;color:#6e7494;font-size:12px;font-weight:400}p{margin:4px 0 0}",
    );
    html.append("</style></head><body><main><h1>");
    push_escaped(&mut html, session.title.as_str());
    html.append("</h1><p class=\"sub\">");
    let mut count = String::new();
    push_decimal(&mut count, turns.len() as u64);
    count.append(" lines");
    push_escaped(&mut html, count.as_str());
    html.append("</p><div class=\"people\">");
    let ghost head = html@;
    let mut i: usize = 0;
    while i < speakers.len()
        invariant
            i <= speakers@.len(),
            portraits_fit(portraits@),
            html@ == head + people_spec(portraits@, session.speakers@, speakers@.take(i as int)),
        decreases speakers.len() - i,
    {
        push_person(&mut html, portraits, &session.speakers, speakers[i]);
        assert(speakers@.take(i + 1).drop_last() =~= speakers@.take(i as int));
        i = i + 1;
    }
    assert(speakers@.take(speakers@.len() as int) =~= speakers@);
    html.append("</div>");
    let ghost middle = html@;
    let mut j: usize = 0;
    while j < turns.len()
        invariant
            j <= turns@.len(),
            portraits_fit(portraits@),
            html@ == middle + lines_spec(portraits@, session.speakers@, turns@.take(j as int)),
        decreases turns.len() - j,
    {
        push_line(&mut html, portraits, &session.speakers, &turns[j]);
        assert(turns@.take(j + 1).drop_last() =~= turns@.take(j as int));
        j = j + 1;
    }
    assert(turns@.take(turns@.len() as int) =~= turns@);
    html.append("</main></body></html>");
    assert(html@ =~= page_spec(*session, portraits@));
    html
}

} // verus!
