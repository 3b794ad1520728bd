//! Re-analysing part of a recording: the new speaker activity and lines of
//! a time range replace the old ones there, the new voices take the ids of
//! the old voices they overlap, and everything is put back in time order.
use vstd::prelude::*;

use crate::session::{copy_turn, Segment, Session, Turn};
use crate::speakers::{ME, OVERLAP_SPEAKER, UNASSIGNED_SPEAKER};

verus! {

/// Overlap, in microseconds, from which a new voice is taken to be an old
/// one (0.3 s).
pub const MIN_SHARED: u64 = 300_000;

/// Whether the span `[start, end)` meets the range `[range_start, range_end)`.
pub open spec fn overlaps(start: u64, end: u64, range_start: u64, range_end: u64) -> bool {
    end > range_start && start < range_end
}

pub fn overlaps_time(start: u64, end: u64, range_start: u64, range_end: u64) -> (r: bool)
    ensures
        r == overlaps(start, end, range_start, range_end),
{
    end > range_start && start < range_end
}

/// Old numbered-voice activity inside the range: the evidence for naming
/// the new voices.
pub open spec fn evidence(segments: Seq<Segment>, a: u64, b: u64) -> Seq<Segment> {
    segments.filter(|g: Segment| is_evidence(g, a, b))
}

pub open spec fn is_evidence(g: Segment, a: u64, b: u64) -> bool {
    g.speaker < ME && overlaps(g.start, g.end, a, b)
}

/// Segments that stay: the microphone's, and all that lie outside the range.
pub open spec fn kept_segments(segments: Seq<Segment>, a: u64, b: u64) -> Seq<Segment> {
    segments.filter(|g: Segment| segment_stays(g, a, b))
}

pub open spec fn segment_stays(g: Segment, a: u64, b: u64) -> bool {
    g.speaker == ME || !overlaps(g.start, g.end, a, b)
}

/// Lines that stay: the microphone's, and all that lie outside the range.
pub open spec fn kept_turns(turns: Seq<Turn>, a: u64, b: u64) -> Seq<Turn> {
    turns.filter(|t: Turn| turn_stays(t, a, b))
}

pub open spec fn turn_stays(t: Turn, a: u64, b: u64) -> bool {
    t.speaker == ME || !overlaps(t.start, t.end, a, b)
}

/// How long two segments overlap, in microseconds.
pub open spec fn shared(g: Segment, p: Segment) -> int {
    let lo = if g.start > p.start {
        g.start
    } else {
        p.start
    };
    let hi = if g.end < p.end {
        g.end
    } else {
        p.end
    };
    if hi > lo {
        hi - lo
    } else {
        0
    }
}

pub open spec fn best_value(b: Option<(u8, int)>) -> int {
    match b {
        Some(x) => x.1,
        None => 0,
    }
}

/// The best match so far, with `p` considered against the new segment `g`:
/// it wins only with a strictly longer overlap.
pub open spec fn best_step(b: Option<(u8, int)>, g: Segment, p: Segment) -> Option<(u8, int)> {
    if shared(g, p) > best_value(b) {
        Some((p.speaker, shared(g, p)))
    } else {
        b
    }
}

pub open spec fn best_over(old: Seq<Segment>, g: Segment, b: Option<(u8, int)>) -> Option<
    (u8, int),
>
    decreases old.len(),
{
    if old.len() == 0 {
        b
    } else {
        best_step(best_over(old.drop_last(), g, b), g, old.last())
    }
}

/// The old voice that a new voice `speaker` overlaps longest, and by how
/// much; the first such pair in order wins a tie.
pub open spec fn best_match(new: Seq<Segment>, old: Seq<Segment>, speaker: u8) -> Option<(u8, int)>
    decreases new.len(),
{
    if new.len() == 0 {
        None
    } else {
        let b = best_match(new.drop_last(), old, speaker);
        if new.last().speaker == speaker {
            best_over(old, new.last(), b)
        } else {
            b
        }
    }
}

pub open spec fn add_id(ids: Seq<u8>, speaker: u8) -> Seq<u8> {
    if speaker < ME && !ids.contains(speaker) {
        ids.push(speaker)
    } else {
        ids
    }
}

pub open spec fn segment_ids(ids: Seq<u8>, segments: Seq<Segment>) -> Seq<u8>
    decreases segments.len(),
{
    if segments.len() == 0 {
        ids
    } else {
        add_id(segment_ids(ids, segments.drop_last()), segments.last().speaker)
    }
}

pub open spec fn turn_ids(ids: Seq<u8>, turns: Seq<Turn>) -> Seq<u8>
    decreases turns.len(),
{
    if turns.len() == 0 {
        ids
    } else {
        add_id(turn_ids(ids, turns.drop_last()), turns.last().speaker)
    }
}

/// The numbered voices of the new analysis, in order of first appearance.
pub open spec fn new_voices(segments: Seq<Segment>, turns: Seq<Turn>) -> Seq<u8> {
    turn_ids(segment_ids(Seq::empty(), segments), turns)
}

/// Whether numbered voice `id` is already in use by what stays or by a
/// voice already renamed.
pub open spec fn taken(kept: Seq<Segment>, lines: Seq<Turn>, map: Seq<Option<u8>>, id: u8) -> bool {
    ||| exists|i: int| 0 <= i < kept.len() && #[trigger] kept[i].speaker == id
    ||| exists|i: int| 0 <= i < lines.len() && #[trigger] lines[i].speaker == id
    ||| exists|i: int| 0 <= i < map.len() && #[trigger] map[i] == Some(id)
}

/// The lowest numbered voice from `i` on that is not taken.
pub open spec fn free_from(kept: Seq<Segment>, lines: Seq<Turn>, map: Seq<Option<u8>>, i: int) -> Option<u8>
    decreases 8 - i,
{
    if i < 0 || i >= 8 {
        None
    } else if !taken(kept, lines, map, i as u8) {
        Some(i as u8)
    } else {
        free_from(kept, lines, map, i + 1)
    }
}

/// What the new voice `speaker` is called: the old voice it overlaps by at
/// least 0.3 s; otherwise the lowest free voice; otherwise the old voice it
/// overlaps most; otherwise it keeps its own id.
pub open spec fn assign(
    map: Seq<Option<u8>>,
    speaker: u8,
    new: Seq<Segment>,
    old: Seq<Segment>,
    kept: Seq<Segment>,
    lines: Seq<Turn>,
) -> Seq<Option<u8>> {
    let b = best_match(new, old, speaker);
    match b {
        Some(x) => if x.1 >= MIN_SHARED {
            map.update(speaker as int, Some(x.0))
        } else {
            match free_from(kept, lines, map, 0) {
                Some(id) => map.update(speaker as int, Some(id)),
                None => map.update(speaker as int, Some(x.0)),
            }
        },
        None => match free_from(kept, lines, map, 0) {
            Some(id) => map.update(speaker as int, Some(id)),
            None => map,
        },
    }
}

pub open spec fn no_names() -> Seq<Option<u8>> {
    Seq::new(8, |i: int| None::<u8>)
}

pub open spec fn build_map(
    ids: Seq<u8>,
    new: Seq<Segment>,
    old: Seq<Segment>,
    kept: Seq<Segment>,
    lines: Seq<Turn>,
) -> Seq<Option<u8>>
    decreases ids.len(),
{
    if ids.len() == 0 {
        no_names()
    } else {
        assign(build_map(ids.drop_last(), new, old, kept, lines), ids.last(), new, old, kept, lines)
    }
}

/// The id a new voice ends up with.
pub open spec fn renamed(map: Seq<Option<u8>>, speaker: u8) -> u8 {
    if (speaker as int) < map.len() && map[speaker as int] is Some {
        map[speaker as int]->0
    } else {
        speaker
    }
}

/// How the new voices are renamed when `new_segments` and `new_turns`
/// replace the range `[a, b)` of `session_segments` and `session_turns`.
pub open spec fn merge_map(
    session_segments: Seq<Segment>,
    session_turns: Seq<Turn>,
    new_segments: Seq<Segment>,
    new_turns: Seq<Turn>,
    a: u64,
    b: u64,
) -> Seq<Option<u8>> {
    build_map(
        new_voices(new_segments, new_turns),
        new_segments,
        evidence(session_segments, a, b),
        kept_segments(session_segments, a, b),
        kept_turns(session_turns, a, b),
    )
}

/// Whether a label of the new analysis is taken into the session: a
/// numbered voice, "Overlap" or "Unassigned". "Me" is the microphone's own
/// and never comes from a re-analysis.
pub open spec fn brought_in(speaker: u8) -> bool {
    speaker < ME || speaker == OVERLAP_SPEAKER || speaker == UNASSIGNED_SPEAKER
}

fn is_brought_in(speaker: u8) -> (r: bool)
    ensures
        r == brought_in(speaker),
{
    speaker < ME || speaker == OVERLAP_SPEAKER || speaker == UNASSIGNED_SPEAKER
}

/// The new segments that are taken in, numbered voices under their new ids.
pub open spec fn renamed_segments(new: Seq<Segment>, map: Seq<Option<u8>>) -> Seq<Segment> {
    new.filter(|g: Segment| brought_in(g.speaker)).map_values(|g: Segment| rename_segment(map, g))
}

pub open spec fn rename_segment(map: Seq<Option<u8>>, g: Segment) -> Segment {
    Segment { speaker: renamed(map, g.speaker), start: g.start, end: g.end }
}

/// The new lines that are taken in, numbered voices under their new ids.
pub open spec fn renamed_turns(new: Seq<Turn>, map: Seq<Option<u8>>) -> Seq<Turn> {
    new.filter(|t: Turn| brought_in(t.speaker)).map_values(|t: Turn| rename_turn(map, t))
}

pub open spec fn rename_turn(map: Seq<Option<u8>>, t: Turn) -> Turn {
    Turn { speaker: renamed(map, t.speaker), start: t.start, end: t.end, text: t.text }
}

/// `s` with `x` put after every element that starts no later than it.
pub open spec fn insert_by_start<T>(s: Seq<T>, x: T, start: spec_fn(T) -> u64) -> Seq<T>
    decreases s.len(),
{
    if s.len() == 0 || start(s.last()) <= start(x) {
        s.push(x)
    } else {
        insert_by_start(s.drop_last(), x, start).push(s.last())
    }
}

/// `s` in order of start time; elements with equal starts keep their order.
pub open spec fn sort_by_start<T>(s: Seq<T>, start: spec_fn(T) -> u64) -> Seq<T>
    decreases s.len(),
{
    if s.len() == 0 {
        s
    } else {
        insert_by_start(sort_by_start(s.drop_last(), start), s.last(), start)
    }
}

pub open spec fn segment_start(g: Segment) -> u64 {
    g.start
}

pub open spec fn turn_start(t: Turn) -> u64 {
    t.start
}

/// The session's segments after the merge.
pub open spec fn merged_segments(
    session_segments: Seq<Segment>,
    session_turns: Seq<Turn>,
    new_segments: Seq<Segment>,
    new_turns: Seq<Turn>,
    a: u64,
    b: u64,
) -> Seq<Segment> {
    let map = merge_map(session_segments, session_turns, new_segments, new_turns, a, b);
    sort_by_start(
        kept_segments(session_segments, a, b) + renamed_segments(new_segments, map),
        |g: Segment| segment_start(g),
    )
}

/// The session's lines after the merge.
pub open spec fn merged_turns(
    session_segments: Seq<Segment>,
    session_turns: Seq<Turn>,
    new_segments: Seq<Segment>,
    new_turns: Seq<Turn>,
    a: u64,
    b: u64,
) -> Seq<Turn> {
    let map = merge_map(session_segments, session_turns, new_segments, new_turns, a, b);
    sort_by_start(
        kept_turns(session_turns, a, b) + renamed_turns(new_turns, map),
        |t: Turn| turn_start(t),
    )
}

proof fn lemma_insert_at(s: Seq<Segment>, x: Segment, p: int)
    requires
        0 <= p <= s.len(),
        forall|j: int| p <= j < s.len() ==> #[trigger] s[j].start > x.start,
        p == 0 || s[p - 1].start <= x.start,
    ensures
        insert_by_start(s, x, |g: Segment| segment_start(g)) == s.insert(p, x),
    decreases s.len() - p,
{
    if p == s.len() {
        assert(s.push(x) =~= s.insert(p, x));
    } else {
        let t = s.drop_last();
        assert(s.last().start > x.start);
        assert forall|j: int| p <= j < t.len() implies #[trigger] t[j].start > x.start by {
            assert(t[j] == s[j]);
        }
        if p > 0 {
            assert(t[p - 1] == s[p - 1]);
        }
        lemma_insert_at(t, x, p);
        assert(t.insert(p, x).push(s.last()) =~= s.insert(p, x));
    }
}

proof fn lemma_insert_at_turn(s: Seq<Turn>, x: Turn, p: int)
    requires
        0 <= p <= s.len(),
        forall|j: int| p <= j < s.len() ==> #[trigger] s[j].start > x.start,
        p == 0 || s[p - 1].start <= x.start,
    ensures
        insert_by_start(s, x, |t: Turn| turn_start(t)) == s.insert(p, x),
    decreases s.len() - p,
{
    if p == s.len() {
        assert(s.push(x) =~= s.insert(p, x));
    } else {
        let t = s.drop_last();
        assert(s.last().start > x.start);
        assert forall|j: int| p <= j < t.len() implies #[trigger] t[j].start > x.start by {
            assert(t[j] == s[j]);
        }
        if p > 0 {
            assert(t[p - 1] == s[p - 1]);
        }
        lemma_insert_at_turn(t, x, p);
        assert(t.insert(p, x).push(s.last()) =~= s.insert(p, x));
    }
}

/// Puts segments in order of start time, keeping the order of equal starts.
pub fn sort_segments(v: &mut Vec<Segment>)
    ensures
        final(v)@ == sort_by_start(old(v)@, |g: Segment| segment_start(g)),
{
    let ghost input = v@;
    let mut out: Vec<Segment> = Vec::new();
    let mut i: usize = 0;
    while i < v.len()
        invariant
            v@ == input,
            i <= v@.len(),
            out@ == sort_by_start(input.take(i as int), |g: Segment| segment_start(g)),
        decreases v.len() - i,
    {
        let x = v[i];
        let mut p = out.len();
        while p > 0 && out[p - 1].start > x.start
            invariant
                p <= out@.len(),
                forall|j: int| p <= j < out@.len() ==> #[trigger] out@[j].start > x.start,
            decreases p,
        {
            p = p - 1;
        }
        proof {
            lemma_insert_at(out@, x, p as int);
            assert(input.take(i + 1).drop_last() =~= input.take(i as int));
            assert(input.take(i + 1).last() == x);
        }
        out.insert(p, x);
        i = i + 1;
    }
    assert(input.take(input.len() as int) =~= input);
    *v = out;
}

/// Puts lines in order of start time, keeping the order of equal starts.
pub fn sort_turns(v: &mut Vec<Turn>)
    ensures
        final(v)@ == sort_by_start(old(v)@, |t: Turn| turn_start(t)),
{
    let ghost input = v@;
    let mut out: Vec<Turn> = Vec::new();
    let mut i: usize = 0;
    while i < v.len()
        invariant
            v@ == input,
            i <= v@.len(),
            out@ == sort_by_start(input.take(i as int), |t: Turn| turn_start(t)),
        decreases v.len() - i,
    {
        let x = copy_turn(&v[i]);
        let mut p = out.len();
        while p > 0 && out[p - 1].start > x.start
            invariant
                p <= out@.len(),
                forall|j: int| p <= j < out@.len() ==> #[trigger] out@[j].start > x.start,
            decreases p,
        {
            p = p - 1;
        }
        proof {
            lemma_insert_at_turn(out@, x, p as int);
            assert(input.take(i + 1).drop_last() =~= input.take(i as int));
            assert(input.take(i + 1).last() == x);
        }
        out.insert(p, x);
        i = i + 1;
    }
    assert(input.take(input.len() as int) =~= input);
    *v = out;
}

fn collect_evidence(v: &Vec<Segment>, a: u64, b: u64) -> (r: Vec<Segment>)
    ensures
        r@ == evidence(v@, a, b),
{
    let mut r: Vec<Segment> = Vec::new();
    let mut i: usize = 0;
    while i < v.len()
        invariant
            i <= v@.len(),
            r@ == evidence(v@.take(i as int), a, b),
        decreases v.len() - i,
    {
        let g = v[i];
        if g.speaker < ME && overlaps_time(g.start, g.end, a, b) {
            r.push(g);
        }
        proof {
            reveal(Seq::filter);
            assert(v@.take(i + 1).drop_last() =~= v@.take(i as int));
            assert(v@.take(i + 1).last() == g);
        }
        i = i + 1;
    }
    assert(v@.take(v@.len() as int) =~= v@);
    r
}

fn keep_segments(v: &Vec<Segment>, a: u64, b: u64) -> (r: Vec<Segment>)
    ensures
        r@ == kept_segments(v@, a, b),
{
    let mut r: Vec<Segment> = Vec::new();
    let mut i: usize = 0;
    while i < v.len()
        invariant
            i <= v@.len(),
            r@ == kept_segments(v@.take(i as int), a, b),
        decreases v.len() - i,
    {
        let g = v[i];
        if g.speaker == ME || !overlaps_time(g.start, g.end, a, b) {
            r.push(g);
        }
        proof {
            reveal(Seq::filter);
            assert(v@.take(i + 1).drop_last() =~= v@.take(i as int));
            assert(v@.take(i + 1).last() == g);
        }
        i = i + 1;
    }
    assert(v@.take(v@.len() as int) =~= v@);
    r
}

fn keep_turns(v: &Vec<Turn>, a: u64, b: u64) -> (r: Vec<Turn>)
    ensures
        r@ == kept_turns(v@, a, b),
{
    let mut r: Vec<Turn> = Vec::new();
    let mut i: usize = 0;
    while i < v.len()
        invariant
            i <= v@.len(),
            r@ == kept_turns(v@.take(i as int), a, b),
        decreases v.len() - i,
    {
        let t = &v[i];
        if t.speaker == ME || !overlaps_time(t.start, t.end, a, b) {
            r.push(copy_turn(t));
        }
        proof {
            reveal(Seq::filter);
            assert(v@.take(i + 1).drop_last() =~= v@.take(i as int));
            assert(v@.take(i + 1).last() == v@[i as int]);
        }
        i = i + 1;
    }
    assert(v@.take(v@.len() as int) =~= v@);
    r
}

fn contains_id(ids: &Vec<u8>, x: u8) -> (r: bool)
    ensures
        r == ids@.contains(x),
{
    let mut i: usize = 0;
    while i < ids.len()
        invariant
            i <= ids@.len(),
            forall|k: int| 0 <= k < i ==> ids@[k] != x,
        decreases ids.len() - i,
    {
        if ids[i] == x {
            return true;
        }
        i = i + 1;
    }
    false
}

fn new_voice_ids(segments: &Vec<Segment>, turns: &Vec<Turn>) -> (r: Vec<u8>)
    ensures
        r@ == new_voices(segments@, turns@),
        forall|i: int| 0 <= i < r@.len() ==> #[trigger] r@[i] < ME,
{
    let mut ids: Vec<u8> = Vec::new();
    let mut i: usize = 0;
    while i < segments.len()
        invariant
            i <= segments@.len(),
            ids@ == segment_ids(Seq::empty(), segments@.take(i as int)),
            forall|k: int| 0 <= k < ids@.len() ==> #[trigger] ids@[k] < ME,
        decreases segments.len() - i,
    {
        let x = segments[i].speaker;
        if x < ME && !contains_id(&ids, x) {
            ids.push(x);
        }
        assert(segments@.take(i + 1).drop_last() =~= segments@.take(i as int));
        i = i + 1;
    }
    assert(segments@.take(segments@.len() as int) =~= segments@);
    let ghost base = ids@;
    let mut j: usize = 0;
    while j < turns.len()
        invariant
            j <= turns@.len(),
            base == segment_ids(Seq::empty(), segments@),
            ids@ == turn_ids(base, turns@.take(j as int)),
            forall|k: int| 0 <= k < ids@.len() ==> #[trigger] ids@[k] < ME,
        decreases turns.len() - j,
    {
        let x = turns[j].speaker;
        if x < ME && !contains_id(&ids, x) {
            ids.push(x);
        }
        assert(turns@.take(j + 1).drop_last() =~= turns@.take(j as int));
        j = j + 1;
    }
    assert(turns@.take(turns@.len() as int) =~= turns@);
    ids
}

pub open spec fn as_best(b: Option<(u8, u64)>) -> Option<(u8, int)> {
    match b {
        Some(x) => Some((x.0, x.1 as int)),
        None => None,
    }
}

fn shared_exec(g: Segment, p: Segment) -> (r: u64)
    ensures
        r as int == shared(g, p),
{
    let lo = if g.start > p.start {
        g.start
    } else {
        p.start
    };
    let hi = if g.end < p.end {
        g.end
    } else {
        p.end
    };
    if hi > lo {
        hi - lo
    } else {
        0
    }
}

fn best_match_exec(new: &Vec<Segment>, old: &Vec<Segment>, speaker: u8) -> (r: Option<(u8, u64)>)
    ensures
        as_best(r) == best_match(new@, old@, speaker),
{
    let mut best: Option<(u8, u64)> = None;
    let mut i: usize = 0;
    while i < new.len()
        invariant
            i <= new@.len(),
            as_best(best) == best_match(new@.take(i as int), old@, speaker),
        decreases new.len() - i,
    {
        let g = new[i];
        assert(new@.take(i + 1).drop_last() =~= new@.take(i as int));
        assert(new@.take(i + 1).last() == g);
        if g.speaker == speaker {
            let ghost start = as_best(best);
            let mut j: usize = 0;
            while j < old.len()
                invariant
                    j <= old@.len(),
                    as_best(best) == best_over(old@.take(j as int), g, start),
                decreases old.len() - j,
            {
                let p = old[j];
                let ov = shared_exec(g, p);
                let current = match best {
                    Some(x) => x.1,
                    None => 0,
                };
                if ov > current {
                    best = Some((p.speaker, ov));
                }
                assert(old@.take(j + 1).drop_last() =~= old@.take(j as int));
                assert(old@.take(j + 1).last() == p);
                j = j + 1;
            }
            assert(old@.take(old@.len() as int) =~= old@);
        }
        i = i + 1;
    }
    assert(new@.take(new@.len() as int) =~= new@);
    best
}

fn taken_exec(kept: &Vec<Segment>, lines: &Vec<Turn>, map: &Vec<Option<u8>>, id: u8) -> (r: bool)
    ensures
        r == taken(kept@, lines@, map@, id),
{
    let mut i: usize = 0;
    while i < kept.len()
        invariant
            i <= kept@.len(),
            forall|k: int| 0 <= k < i ==> #[trigger] kept@[k].speaker != id,
        decreases kept.len() - i,
    {
        if kept[i].speaker == id {
            return true;
        }
        i = i + 1;
    }
    let mut j: usize = 0;
    while j < lines.len()
        invariant
            j <= lines@.len(),
            forall|k: int| 0 <= k < j ==> #[trigger] lines@[k].speaker != id,
        decreases lines.len() - j,
    {
        if lines[j].speaker == id {
            return true;
        }
        j = j + 1;
    }
    let mut m: usize = 0;
    while m < map.len()
        invariant
            m <= map@.len(),
            forall|k: int| 0 <= k < m ==> #[trigger] map@[k] != Some(id),
        decreases map.len() - m,
    {
        match map[m] {
            Some(x) => {
                if x == id {
                    return true;
                }
            },
            None => {},
        }
        m = m + 1;
    }
    false
}

fn free_exec(kept: &Vec<Segment>, lines: &Vec<Turn>, map: &Vec<Option<u8>>) -> (r: Option<u8>)
    ensures
        r == free_from(kept@, lines@, map@, 0),
{
    let mut id: u8 = 0;
    while id < 8
        invariant
            id <= 8,
            free_from(kept@, lines@, map@, 0) == free_from(kept@, lines@, map@, id as int),
        decreases 8 - id,
    {
        if !taken_exec(kept, lines, map, id) {
            return Some(id);
        }
        id = id + 1;
    }
    None
}

fn build_map_exec(
    ids: &Vec<u8>,
    new: &Vec<Segment>,
    old: &Vec<Segment>,
    kept: &Vec<Segment>,
    lines: &Vec<Turn>,
) -> (r: Vec<Option<u8>>)
    requires
        forall|i: int| 0 <= i < ids@.len() ==> #[trigger] ids@[i] < ME,
    ensures
        r@ == build_map(ids@, new@, old@, kept@, lines@),
{
    let mut map: Vec<Option<u8>> = Vec::new();
    let mut n: usize = 0;
    while n < 8
        invariant
            n <= 8,
            map@ == Seq::new(n as nat, |i: int| None::<u8>),
        decreases 8 - n,
    {
        map.push(None);
        assert(map@ =~= Seq::new((n + 1) as nat, |i: int| None::<u8>));
        n = n + 1;
    }
    assert(ids@.take(0) =~= Seq::<u8>::empty());
    let mut k: usize = 0;
    while k < ids.len()
        invariant
            k <= ids@.len(),
            forall|i: int| 0 <= i < ids@.len() ==> #[trigger] ids@[i] < ME,
            map@ == build_map(ids@.take(k as int), new@, old@, kept@, lines@),
            map@.len() == 8,
        decreases ids.len() - k,
    {
        let speaker = ids[k];
        assert(ids@.take(k + 1).drop_last() =~= ids@.take(k as int));
        assert(ids@.take(k + 1).last() == speaker);
        let best = best_match_exec(new, old, speaker);
        match best {
            Some(x) => {
                if x.1 >= MIN_SHARED {
                    map.set(speaker as usize, Some(x.0));
                } else {
                    match free_exec(kept, lines, &map) {
                        Some(id) => map.set(speaker as usize, Some(id)),
                        None => map.set(speaker as usize, Some(x.0)),
                    }
                }
            },
            None => {
                match free_exec(kept, lines, &map) {
                    Some(id) => map.set(speaker as usize, Some(id)),
                    None => {},
                }
            },
        }
        k = k + 1;
    }
    assert(ids@.take(ids@.len() as int) =~= ids@);
    map
}

fn rename_exec(map: &Vec<Option<u8>>, speaker: u8) -> (r: u8)
    ensures
        r == renamed(map@, speaker),
{
    if (speaker as usize) < map.len() {
        match map[speaker as usize] {
            Some(x) => x,
            None => speaker,
        }
    } else {
        speaker
    }
}

fn push_renamed_segments(out: &mut Vec<Segment>, new: &Vec<Segment>, map: &Vec<Option<u8>>)
    ensures
        final(out)@ == old(out)@ + renamed_segments(new@, map@),
{
    let mut i: usize = 0;
    while i < new.len()
        invariant
            i <= new@.len(),
            out@ == old(out)@ + renamed_segments(new@.take(i as int), map@),
        decreases new.len() - i,
    {
        let g = new[i];
        let ghost before = new@.take(i as int).filter(|g: Segment| brought_in(g.speaker));
        proof {
            reveal(Seq::filter);
            assert(new@.take(i + 1).drop_last() =~= new@.take(i as int));
            assert(new@.take(i + 1).last() == g);
        }
        if is_brought_in(g.speaker) {
            let x = Segment { speaker: rename_exec(map, g.speaker), start: g.start, end: g.end };
            out.push(x);
            proof {
                let f = |g: Segment| rename_segment(map@, g);
                assert(before.push(g).map_values(f) =~= before.map_values(f).push(f(g)));
            }
        }
        i = i + 1;
    }
    assert(new@.take(new@.len() as int) =~= new@);
}

fn push_renamed_turns(out: &mut Vec<Turn>, new: &Vec<Turn>, map: &Vec<Option<u8>>)
    ensures
        final(out)@ == old(out)@ + renamed_turns(new@, map@),
{
    let mut i: usize = 0;
    while i < new.len()
        invariant
            i <= new@.len(),
            out@ == old(out)@ + renamed_turns(new@.take(i as int), map@),
        decreases new.len() - i,
    {
        let t = &new[i];
        let ghost before = new@.take(i as int).filter(|t: Turn| brought_in(t.speaker));
        proof {
            reveal(Seq::filter);
            assert(new@.take(i + 1).drop_last() =~= new@.take(i as int));
            assert(new@.take(i + 1).last() == *t);
        }
        if is_brought_in(t.speaker) {
            let x = Turn {
                speaker: rename_exec(map, t.speaker),
                start: t.start,
                end: t.end,
                text: t.text.clone(),
            };
            out.push(x);
            proof {
                let f = |t: Turn| rename_turn(map@, t);
                assert(before.push(*t).map_values(f) =~= before.map_values(f).push(f(*t)));
            }
        }
        i = i + 1;
    }
    assert(new@.take(new@.len() as int) =~= new@);
}

/// Replaces what a re-analysis of the range `[start, end)` found: old
/// segments and lines that touch the range go (the microphone's stay), the
/// new numbered-voice ones come in under the ids that `merge_map` gives
/// them, new "Overlap" and "Unassigned" ones come in as they are (new "Me"
/// ones are left out), and segments and lines are put in order of start
/// time.
pub fn merge_selection(
    session: &mut Session,
    segments: Vec<Segment>,
    turns: Vec<Turn>,
    start: u64,
    end: u64,
)
    ensures
        final(session).segments@ == merged_segments(
            old(session).segments@,
            old(session).turns@,
            segments@,
            turns@,
            start,
            end,
        ),
        final(session).turns@ == merged_turns(
            old(session).segments@,
            old(session).turns@,
            segments@,
            turns@,
            start,
            end,
        ),
        crate::session::same_recording(*final(session), *old(session)),
        final(session).speakers == old(session).speakers,
        final(session).status == old(session).status,
        final(session).message == old(session).message,
{
    let old_voices = collect_evidence(&session.segments, start, end);
    let kept = keep_segments(&session.segments, start, end);
    let lines = keep_turns(&session.turns, start, end);
    let ids = new_voice_ids(&segments, &turns);
    let map = build_map_exec(&ids, &segments, &old_voices, &kept, &lines);
    let mut all_segments = kept;
    push_renamed_segments(&mut all_segments, &segments, &map);
    let mut all_turns = lines;
    push_renamed_turns(&mut all_turns, &turns, &map);
    sort_segments(&mut all_segments);
    sort_turns(&mut all_turns);
    session.segments = all_segments;
    session.turns = all_turns;
}

/// Whether `s` is in order of start time.
pub open spec fn starts_in_order<T>(s: Seq<T>, start: spec_fn(T) -> u64) -> bool {
    forall|i: int, j: int| 0 <= i < j < s.len() ==> start(s[i]) <= start(s[j])
}

proof fn lemma_insert_by_start<T>(s: Seq<T>, x: T, start: spec_fn(T) -> u64)
    ensures
        insert_by_start(s, x, start).to_multiset() == s.to_multiset().insert(x),
        insert_by_start(s, x, start).len() == s.len() + 1,
        starts_in_order(s, start) ==> starts_in_order(insert_by_start(s, x, start), start),
    decreases s.len(),
{
    broadcast use vstd::seq_lib::group_to_multiset_ensures;

    if s.len() == 0 || start(s.last()) <= start(x) {
        let r = s.push(x);
        if starts_in_order(s, start) {
            assert forall|i: int, j: int| 0 <= i < j < r.len() implies start(r[i]) <= start(
                r[j],
            ) by {
                if j == s.len() && s.len() > 0 {
                    assert(start(s[i]) <= start(s[s.len() - 1]));
                }
            }
        }
    } else {
        let t = s.drop_last();
        let last = s.last();
        lemma_insert_by_start(t, x, start);
        let u = insert_by_start(t, x, start);
        assert(s =~= t.push(last));
        assert(u.push(last).to_multiset() =~= s.to_multiset().insert(x));
        if starts_in_order(s, start) {
            assert(starts_in_order(t, start));
            let r = u.push(last);
            assert forall|i: int, j: int| 0 <= i < j < r.len() implies start(r[i]) <= start(
                r[j],
            ) by {
                if j == u.len() {
                    // every element of `u` is `x` or an element of `t`
                    assert(u.to_multiset().count(u[i]) > 0);
                    assert(u.contains(u[i]));
                    if u[i] != x {
                        assert(t.to_multiset().count(u[i]) > 0);
                        assert(t.contains(u[i]));
                        let k = choose|k: int| 0 <= k < t.len() && t[k] == u[i];
                        assert(start(s[k]) <= start(s[s.len() - 1]));
                    }
                }
            }
        }
    }
}

/// Sorting by start time keeps every element, each as often, and puts
/// them in order.
pub proof fn lemma_sort_by_start<T>(s: Seq<T>, start: spec_fn(T) -> u64)
    ensures
        sort_by_start(s, start).to_multiset() == s.to_multiset(),
        sort_by_start(s, start).len() == s.len(),
        starts_in_order(sort_by_start(s, start), start),
    decreases s.len(),
{
    broadcast use vstd::seq_lib::group_to_multiset_ensures;

    if s.len() > 0 {
        lemma_sort_by_start(s.drop_last(), start);
        lemma_insert_by_start(sort_by_start(s.drop_last(), start), s.last(), start);
        assert(s =~= s.drop_last().push(s.last()));
    }
}

pub(crate) proof fn lemma_sorted_contains<T>(s: Seq<T>, start: spec_fn(T) -> u64, x: T)
    ensures
        sort_by_start(s, start).contains(x) <==> s.contains(x),
{
    broadcast use vstd::seq_lib::group_to_multiset_ensures;

    lemma_sort_by_start(s, start);
    assert(sort_by_start(s, start).to_multiset().count(x) == s.to_multiset().count(x));
}

proof fn lemma_new_voices_ok(segments: Seq<Segment>, turns: Seq<Turn>)
    ensures
        new_voices(segments, turns).no_duplicates(),
        forall|i: int|
            0 <= i < new_voices(segments, turns).len() ==> #[trigger] new_voices(segments, turns)[i]
                < ME,
{
    lemma_segment_ids_ok(Seq::empty(), segments);
    lemma_turn_ids_ok(segment_ids(Seq::empty(), segments), turns);
}

proof fn lemma_add_id_ok(ids: Seq<u8>, x: u8)
    requires
        ids.no_duplicates(),
        forall|i: int| 0 <= i < ids.len() ==> #[trigger] ids[i] < ME,
    ensures
        add_id(ids, x).no_duplicates(),
        forall|i: int| 0 <= i < add_id(ids, x).len() ==> #[trigger] add_id(ids, x)[i] < ME,
{
    if x < ME && !ids.contains(x) {
        let r = ids.push(x);
        assert forall|i: int, j: int| 0 <= i < r.len() && 0 <= j < r.len() && i != j implies r[i]
            != r[j] by {
            if j == ids.len() {
                assert(ids[i] != x);
            } else if i == ids.len() {
                assert(ids[j] != x);
            }
        }
    }
}

proof fn lemma_segment_ids_ok(ids: Seq<u8>, segments: Seq<Segment>)
    requires
        ids.no_duplicates(),
        forall|i: int| 0 <= i < ids.len() ==> #[trigger] ids[i] < ME,
    ensures
        segment_ids(ids, segments).no_duplicates(),
        forall|i: int|
            0 <= i < segment_ids(ids, segments).len() ==> #[trigger] segment_ids(ids, segments)[i]
                < ME,
    decreases segments.len(),
{
    if segments.len() > 0 {
        lemma_segment_ids_ok(ids, segments.drop_last());
        lemma_add_id_ok(segment_ids(ids, segments.drop_last()), segments.last().speaker);
    }
}

proof fn lemma_turn_ids_ok(ids: Seq<u8>, turns: Seq<Turn>)
    requires
        ids.no_duplicates(),
        forall|i: int| 0 <= i < ids.len() ==> #[trigger] ids[i] < ME,
    ensures
        turn_ids(ids, turns).no_duplicates(),
        forall|i: int|
            0 <= i < turn_ids(ids, turns).len() ==> #[trigger] turn_ids(ids, turns)[i] < ME,
    decreases turns.len(),
{
    if turns.len() > 0 {
        lemma_turn_ids_ok(ids, turns.drop_last());
        lemma_add_id_ok(turn_ids(ids, turns.drop_last()), turns.last().speaker);
    }
}

proof fn lemma_best_over_from(old: Seq<Segment>, g: Segment, b: Option<(u8, int)>)
    ensures
        best_over(old, g, b) == b || exists|i: int|
            0 <= i < old.len() && best_over(old, g, b) == Some(
                (#[trigger] old[i].speaker, shared(g, old[i])),
            ),
    decreases old.len(),
{
    if old.len() > 0 {
        lemma_best_over_from(old.drop_last(), g, b);
        let prev = best_over(old.drop_last(), g, b);
        if prev != b {
            let i = choose|i: int|
                0 <= i < old.len() - 1 && prev == Some(
                    (#[trigger] old.drop_last()[i].speaker, shared(g, old.drop_last()[i])),
                );
            assert(old[i] == old.drop_last()[i]);
        }
        if best_over(old, g, b) != prev {
            assert(best_over(old, g, b) == Some(
                (old[old.len() - 1].speaker, shared(g, old[old.len() - 1])),
            ));
        }
    }
}

proof fn lemma_best_match_from(new: Seq<Segment>, old: Seq<Segment>, speaker: u8)
    ensures
        best_match(new, old, speaker) matches Some(x) ==> exists|i: int|
            0 <= i < old.len() && (#[trigger] old[i]).speaker == x.0,
    decreases new.len(),
{
    if new.len() > 0 {
        lemma_best_match_from(new.drop_last(), old, speaker);
        if new.last().speaker == speaker {
            lemma_best_over_from(old, new.last(), best_match(new.drop_last(), old, speaker));
        }
    }
}

proof fn lemma_free_from_low(kept: Seq<Segment>, lines: Seq<Turn>, map: Seq<Option<u8>>, i: int)
    ensures
        free_from(kept, lines, map, i) matches Some(id) ==> id < ME,
    decreases 8 - i,
{
    if 0 <= i < 8 && taken(kept, lines, map, i as u8) {
        lemma_free_from_low(kept, lines, map, i + 1);
    }
}

/// Whether every renaming in `map` is to a numbered voice.
pub open spec fn names_numbered(map: Seq<Option<u8>>) -> bool {
    forall|i: int| 0 <= i < map.len() ==> (#[trigger] map[i] matches Some(v) ==> v < ME)
}

proof fn lemma_build_map_ok(
    ids: Seq<u8>,
    new: Seq<Segment>,
    old: Seq<Segment>,
    kept: Seq<Segment>,
    lines: Seq<Turn>,
)
    requires
        forall|i: int| 0 <= i < ids.len() ==> #[trigger] ids[i] < ME,
        forall|i: int| 0 <= i < old.len() ==> #[trigger] old[i].speaker < ME,
    ensures
        build_map(ids, new, old, kept, lines).len() == 8,
        names_numbered(build_map(ids, new, old, kept, lines)),
    decreases ids.len(),
{
    if ids.len() > 0 {
        lemma_build_map_ok(ids.drop_last(), new, old, kept, lines);
        let m = build_map(ids.drop_last(), new, old, kept, lines);
        let sp = ids.last();
        lemma_best_match_from(new, old, sp);
        lemma_free_from_low(kept, lines, m, 0);
        let r = assign(m, sp, new, old, kept, lines);
        assert forall|i: int| 0 <= i < r.len() implies (#[trigger] r[i] matches Some(v) ==> v
            < ME) by {
            if i != sp {
                assert(r[i] == m[i]);
            }
        }
    } else {
        assert forall|i: int| 0 <= i < no_names().len() implies (
        #[trigger] no_names()[i] matches Some(v) ==> v < ME) by {}
    }
}

proof fn lemma_build_map_at(
    ids: Seq<u8>,
    new: Seq<Segment>,
    old: Seq<Segment>,
    kept: Seq<Segment>,
    lines: Seq<Turn>,
    k: int,
)
    requires
        ids.no_duplicates(),
        forall|i: int| 0 <= i < ids.len() ==> #[trigger] ids[i] < ME,
        0 <= k < ids.len(),
    ensures
        build_map(ids, new, old, kept, lines)[ids[k] as int] == assign(
            build_map(ids.take(k), new, old, kept, lines),
            ids[k],
            new,
            old,
            kept,
            lines,
        )[ids[k] as int],
    decreases ids.len(),
{
    let t = ids.drop_last();
    if k == ids.len() - 1 {
        assert(t =~= ids.take(k));
    } else {
        assert(t.take(k) =~= ids.take(k));
        assert(t[k] == ids[k]);
        lemma_build_map_at(t, new, old, kept, lines, k);
        lemma_build_map_len(t, new, old, kept, lines);
        assert(ids.last() != ids[k]);
    }
}

proof fn lemma_build_map_len(
    ids: Seq<u8>,
    new: Seq<Segment>,
    old: Seq<Segment>,
    kept: Seq<Segment>,
    lines: Seq<Turn>,
)
    requires
        forall|i: int| 0 <= i < ids.len() ==> #[trigger] ids[i] < ME,
    ensures
        build_map(ids, new, old, kept, lines).len() == 8,
    decreases ids.len(),
{
    if ids.len() > 0 {
        lemma_build_map_len(ids.drop_last(), new, old, kept, lines);
    }
}

/// Whether the new voice `speaker` overlaps an old voice in the range by at
/// least 0.3 s, so that it takes that voice's id.
pub open spec fn matched(new: Seq<Segment>, old: Seq<Segment>, speaker: u8) -> bool {
    best_match(new, old, speaker) matches Some(x) && x.1 >= MIN_SHARED
}

proof fn lemma_free_from_untaken(kept: Seq<Segment>, lines: Seq<Turn>, map: Seq<Option<u8>>, i: int)
    ensures
        free_from(kept, lines, map, i) matches Some(id) ==> !taken(kept, lines, map, id),
    decreases 8 - i,
{
    if 0 <= i < 8 && taken(kept, lines, map, i as u8) {
        lemma_free_from_untaken(kept, lines, map, i + 1);
    }
}

/// The id that the `k`-th new voice takes when it matches no old voice and
/// a numbered voice is free at its turn: the lowest free one.
proof fn lemma_fresh_voice(
    ids: Seq<u8>,
    new: Seq<Segment>,
    old: Seq<Segment>,
    kept: Seq<Segment>,
    lines: Seq<Turn>,
    k: int,
)
    requires
        ids.no_duplicates(),
        forall|i: int| 0 <= i < ids.len() ==> #[trigger] ids[i] < ME,
        0 <= k < ids.len(),
        !matched(new, old, ids[k]),
        free_from(kept, lines, build_map(ids.take(k), new, old, kept, lines), 0) is Some,
    ensures
        build_map(ids, new, old, kept, lines)[ids[k] as int] == free_from(
            kept,
            lines,
            build_map(ids.take(k), new, old, kept, lines),
            0,
        ),
        renamed(build_map(ids, new, old, kept, lines), ids[k]) == free_from(
            kept,
            lines,
            build_map(ids.take(k), new, old, kept, lines),
            0,
        )->0,
{
    lemma_build_map_at(ids, new, old, kept, lines, k);
    lemma_build_map_len(ids, new, old, kept, lines);
    assert forall|i: int| 0 <= i < ids.take(k).len() implies #[trigger] ids.take(k)[i] < ME by {
        assert(ids.take(k)[i] == ids[i]);
    }
    lemma_build_map_len(ids.take(k), new, old, kept, lines);
}

/// Distinct new voices are kept apart: two new voices that match no old
/// voice by 0.3 s, each named while a numbered voice was still free, get
/// different ids, and neither id is one that a segment or line outside the
/// range still carries.
pub proof fn merge_keeps_new_voices_apart(
    session_segments: Seq<Segment>,
    session_turns: Seq<Turn>,
    new_segments: Seq<Segment>,
    new_turns: Seq<Turn>,
    a: u64,
    b: u64,
    k1: int,
    k2: int,
)
    requires
        0 <= k1 < k2 < new_voices(new_segments, new_turns).len(),
        !matched(
            new_segments,
            evidence(session_segments, a, b),
            new_voices(new_segments, new_turns)[k1],
        ),
        !matched(
            new_segments,
            evidence(session_segments, a, b),
            new_voices(new_segments, new_turns)[k2],
        ),
        free_from(
            kept_segments(session_segments, a, b),
            kept_turns(session_turns, a, b),
            build_map(
                new_voices(new_segments, new_turns).take(k1),
                new_segments,
                evidence(session_segments, a, b),
                kept_segments(session_segments, a, b),
                kept_turns(session_turns, a, b),
            ),
            0,
        ) is Some,
        free_from(
            kept_segments(session_segments, a, b),
            kept_turns(session_turns, a, b),
            build_map(
                new_voices(new_segments, new_turns).take(k2),
                new_segments,
                evidence(session_segments, a, b),
                kept_segments(session_segments, a, b),
                kept_turns(session_turns, a, b),
            ),
            0,
        ) is Some,
    ensures
        ({
            let map = merge_map(session_segments, session_turns, new_segments, new_turns, a, b);
            let ids = new_voices(new_segments, new_turns);
            let kept = kept_segments(session_segments, a, b);
            let lines = kept_turns(session_turns, a, b);
            &&& renamed(map, ids[k1]) != renamed(map, ids[k2])
            &&& forall|i: int|
                0 <= i < kept.len() ==> #[trigger] kept[i].speaker != renamed(map, ids[k1])
                    && kept[i].speaker != renamed(map, ids[k2])
            &&& forall|i: int|
                0 <= i < lines.len() ==> #[trigger] lines[i].speaker != renamed(map, ids[k1])
                    && lines[i].speaker != renamed(map, ids[k2])
        }),
{
    let ids = new_voices(new_segments, new_turns);
    let old = evidence(session_segments, a, b);
    let kept = kept_segments(session_segments, a, b);
    let lines = kept_turns(session_turns, a, b);
    lemma_new_voices_ok(new_segments, new_turns);
    let m1 = build_map(ids.take(k1), new_segments, old, kept, lines);
    let m2 = build_map(ids.take(k2), new_segments, old, kept, lines);
    let f1 = free_from(kept, lines, m1, 0)->0;
    let f2 = free_from(kept, lines, m2, 0)->0;
    lemma_fresh_voice(ids, new_segments, old, kept, lines, k1);
    lemma_fresh_voice(ids, new_segments, old, kept, lines, k2);
    lemma_free_from_untaken(kept, lines, m1, 0);
    lemma_free_from_untaken(kept, lines, m2, 0);
    let t2 = ids.take(k2);
    assert(t2.take(k1) =~= ids.take(k1));
    assert(t2[k1] == ids[k1]);
    assert forall|i: int| 0 <= i < t2.len() implies #[trigger] t2[i] < ME by {
        assert(t2[i] == ids[i]);
    }
    assert(t2.no_duplicates()) by {
        assert forall|i: int, j: int| 0 <= i < t2.len() && 0 <= j < t2.len() && i != j implies t2[i]
            != t2[j] by {
            assert(t2[i] == ids[i] && t2[j] == ids[j]);
        }
    }
    lemma_fresh_voice(t2, new_segments, old, kept, lines, k1);
    lemma_build_map_len(t2, new_segments, old, kept, lines);
    lemma_build_map_at(t2, new_segments, old, kept, lines, k1);
    assert(m2[ids[k1] as int] == Some(f1));
    assert(taken(kept, lines, m2, f1));
}

/// Re-analysing a range keeps everything outside it: every old segment and
/// line that does not touch the range, and every one of the microphone's,
/// is still there afterwards.
pub proof fn merge_keeps_outside(
    session_segments: Seq<Segment>,
    session_turns: Seq<Turn>,
    new_segments: Seq<Segment>,
    new_turns: Seq<Turn>,
    a: u64,
    b: u64,
)
    ensures
        forall|i: int|
            0 <= i < session_segments.len() && segment_stays(#[trigger] session_segments[i], a, b)
                ==> merged_segments(session_segments, session_turns, new_segments, new_turns, a, b).contains(
                session_segments[i],
            ),
        forall|i: int|
            0 <= i < session_turns.len() && turn_stays(#[trigger] session_turns[i], a, b)
                ==> merged_turns(session_segments, session_turns, new_segments, new_turns, a, b).contains(
                session_turns[i],
            ),
{
    broadcast use vstd::seq_lib::group_filter_ensures;

    let map = merge_map(session_segments, session_turns, new_segments, new_turns, a, b);
    let ks = kept_segments(session_segments, a, b);
    let kt = kept_turns(session_turns, a, b);
    let all_s = ks + renamed_segments(new_segments, map);
    let all_t = kt + renamed_turns(new_turns, map);
    assert forall|i: int|
        0 <= i < session_segments.len() && segment_stays(
            #[trigger] session_segments[i],
            a,
            b,
        ) implies merged_segments(session_segments, session_turns, new_segments, new_turns, a, b).contains(
        session_segments[i],
    ) by {
        let x = session_segments[i];
        let pred = |g: Segment| segment_stays(g, a, b);
        assert(pred(session_segments[i]));
        assert(session_segments.filter(pred).contains(x));
        let k = choose|k: int| 0 <= k < ks.len() && ks[k] == x;
        assert(all_s[k] == x);
        lemma_sorted_contains(all_s, |g: Segment| segment_start(g), x);
    }
    assert forall|i: int|
        0 <= i < session_turns.len() && turn_stays(
            #[trigger] session_turns[i],
            a,
            b,
        ) implies merged_turns(session_segments, session_turns, new_segments, new_turns, a, b).contains(
        session_turns[i],
    ) by {
        let x = session_turns[i];
        let pred = |t: Turn| turn_stays(t, a, b);
        assert(pred(session_turns[i]));
        assert(session_turns.filter(pred).contains(x));
        let k = choose|k: int| 0 <= k < kt.len() && kt[k] == x;
        assert(all_t[k] == x);
        lemma_sorted_contains(all_t, |t: Turn| turn_start(t), x);
    }
}

/// After a re-analysis every segment and line is either an old one from
/// outside the range (or the microphone's), or a new one with its times
/// and words unchanged: a numbered voice under a numbered-voice id, or an
/// "Overlap" or "Unassigned" one under its own label; and both lists are in
/// order of start time.
pub proof fn merge_result_shape(
    session_segments: Seq<Segment>,
    session_turns: Seq<Turn>,
    new_segments: Seq<Segment>,
    new_turns: Seq<Turn>,
    a: u64,
    b: u64,
)
    ensures
        ({
            let ms = merged_segments(session_segments, session_turns, new_segments, new_turns, a, b);
            forall|i: int|
                0 <= i < ms.len() ==> (session_segments.contains(#[trigger] ms[i]) && segment_stays(
                    ms[i],
                    a,
                    b,
                )) || exists|j: int|
                    0 <= j < new_segments.len() && brought_in(new_segments[j].speaker)
                        && new_segments[j].start == ms[i].start && new_segments[j].end
                        == ms[i].end && if new_segments[j].speaker < ME {
                        ms[i].speaker < ME
                    } else {
                        ms[i].speaker == new_segments[j].speaker
                    }
        }),
        ({
            let mt = merged_turns(session_segments, session_turns, new_segments, new_turns, a, b);
            forall|i: int|
                0 <= i < mt.len() ==> (session_turns.contains(#[trigger] mt[i]) && turn_stays(
                    mt[i],
                    a,
                    b,
                )) || exists|j: int|
                    0 <= j < new_turns.len() && brought_in(new_turns[j].speaker)
                        && new_turns[j].start == mt[i].start && new_turns[j].end == mt[i].end
                        && new_turns[j].text == mt[i].text && if new_turns[j].speaker < ME {
                        mt[i].speaker < ME
                    } else {
                        mt[i].speaker == new_turns[j].speaker
                    }
        }),
        starts_in_order(
            merged_segments(session_segments, session_turns, new_segments, new_turns, a, b),
            |g: Segment| segment_start(g),
        ),
        starts_in_order(
            merged_turns(session_segments, session_turns, new_segments, new_turns, a, b),
            |t: Turn| turn_start(t),
        ),
{
    broadcast use vstd::seq_lib::group_filter_ensures;

    let map = merge_map(session_segments, session_turns, new_segments, new_turns, a, b);
    let old = evidence(session_segments, a, b);
    let ks = kept_segments(session_segments, a, b);
    let kt = kept_turns(session_turns, a, b);
    let ids = new_voices(new_segments, new_turns);
    lemma_new_voices_ok(new_segments, new_turns);
    assert forall|i: int| 0 <= i < old.len() implies #[trigger] old[i].speaker < ME by {
        let pred = |g: Segment| is_evidence(g, a, b);
        assert(pred(session_segments.filter(pred)[i]));
    }
    lemma_build_map_ok(ids, new_segments, old, ks, kt);
    let fs = new_segments.filter(|g: Segment| brought_in(g.speaker));
    let ft = new_turns.filter(|t: Turn| brought_in(t.speaker));
    let rs = renamed_segments(new_segments, map);
    let rt = renamed_turns(new_turns, map);
    let all_s = ks + rs;
    let all_t = kt + rt;
    lemma_sort_by_start(all_s, |g: Segment| segment_start(g));
    lemma_sort_by_start(all_t, |t: Turn| turn_start(t));
    let ms = merged_segments(session_segments, session_turns, new_segments, new_turns, a, b);
    let mt = merged_turns(session_segments, session_turns, new_segments, new_turns, a, b);
    assert forall|i: int| 0 <= i < ms.len() implies (session_segments.contains(#[trigger] ms[i])
        && segment_stays(ms[i], a, b)) || exists|j: int|
        0 <= j < new_segments.len() && brought_in(new_segments[j].speaker)
            && new_segments[j].start == ms[i].start && new_segments[j].end == ms[i].end
            && if new_segments[j].speaker < ME {
            ms[i].speaker < ME
        } else {
            ms[i].speaker == new_segments[j].speaker
        } by {
        let x = ms[i];
        lemma_sorted_contains(all_s, |g: Segment| segment_start(g), x);
        assert(ms.contains(x));
        let k = choose|k: int| 0 <= k < all_s.len() && all_s[k] == x;
        if k < ks.len() {
            let pred = |g: Segment| segment_stays(g, a, b);
            let c = session_segments.filter(pred)[k];
            assert(c == x);
            assert(pred(c));
            assert(session_segments.filter(pred).contains(c));
            session_segments.lemma_filter_contains_rev(pred, c);
            assert(session_segments.contains(x) && segment_stays(x, a, b));
        } else {
            let m = k - ks.len();
            assert(all_s[k] == rs[m]);
            assert(rs[m] == rename_segment(map, fs[m]));
            let pred = |g: Segment| brought_in(g.speaker);
            assert(pred(fs[m]));
            assert(fs.contains(fs[m]));
            new_segments.lemma_filter_contains_rev(pred, fs[m]);
            assert(new_segments.contains(fs[m]));
            let j = choose|j: int| 0 <= j < new_segments.len() && new_segments[j] == fs[m];
            assert(map.len() == 8);
            if fs[m].speaker < ME {
                assert(map[fs[m].speaker as int] matches Some(v) ==> v < ME);
            }
            assert(new_segments[j].start == x.start && new_segments[j].end == x.end);
        }
    }
    assert forall|i: int| 0 <= i < mt.len() implies (session_turns.contains(#[trigger] mt[i])
        && turn_stays(mt[i], a, b)) || exists|j: int|
        0 <= j < new_turns.len() && brought_in(new_turns[j].speaker) && new_turns[j].start
            == mt[i].start && new_turns[j].end == mt[i].end && new_turns[j].text == mt[i].text
            && if new_turns[j].speaker < ME {
            mt[i].speaker < ME
        } else {
            mt[i].speaker == new_turns[j].speaker
        } by {
        let x = mt[i];
        lemma_sorted_contains(all_t, |t: Turn| turn_start(t), x);
        assert(mt.contains(x));
        let k = choose|k: int| 0 <= k < all_t.len() && all_t[k] == x;
        if k < kt.len() {
            let pred = |t: Turn| turn_stays(t, a, b);
            let c = session_turns.filter(pred)[k];
            assert(c == x);
            assert(pred(c));
            assert(session_turns.filter(pred).contains(c));
            session_turns.lemma_filter_contains_rev(pred, c);
            assert(session_turns.contains(x) && turn_stays(x, a, b));
        } else {
            let m = k - kt.len();
            assert(all_t[k] == rt[m]);
            assert(rt[m] == rename_turn(map, ft[m]));
            let pred = |t: Turn| brought_in(t.speaker);
            assert(pred(ft[m]));
            assert(ft.contains(ft[m]));
            new_turns.lemma_filter_contains_rev(pred, ft[m]);
            assert(new_turns.contains(ft[m]));
            let j = choose|j: int| 0 <= j < new_turns.len() && new_turns[j] == ft[m];
            assert(map.len() == 8);
            if ft[m].speaker < ME {
                assert(map[ft[m].speaker as int] matches Some(v) ==> v < ME);
            }
            assert(new_turns[j].start == x.start && new_turns[j].end == x.end && new_turns[j].text
                == x.text);
        }
    }
}

/// Re-analysing keeps the new analysis's uncertain labels: every new
/// "Overlap" and "Unassigned" segment and line is in the result as it came.
pub proof fn merge_keeps_uncertain_labels(
    session_segments: Seq<Segment>,
    session_turns: Seq<Turn>,
    new_segments: Seq<Segment>,
    new_turns: Seq<Turn>,
    a: u64,
    b: u64,
)
    ensures
        forall|j: int|
            0 <= j < new_segments.len() && (#[trigger] new_segments[j].speaker == OVERLAP_SPEAKER
                || new_segments[j].speaker == UNASSIGNED_SPEAKER) ==> merged_segments(
                session_segments,
                session_turns,
                new_segments,
                new_turns,
                a,
                b,
            ).contains(new_segments[j]),
        forall|j: int|
            0 <= j < new_turns.len() && (#[trigger] new_turns[j].speaker == OVERLAP_SPEAKER
                || new_turns[j].speaker == UNASSIGNED_SPEAKER) ==> merged_turns(
                session_segments,
                session_turns,
                new_segments,
                new_turns,
                a,
                b,
            ).contains(new_turns[j]),
{
    broadcast use vstd::seq_lib::group_filter_ensures;

    let map = merge_map(session_segments, session_turns, new_segments, new_turns, a, b);
    let ks = kept_segments(session_segments, a, b);
    let kt = kept_turns(session_turns, a, b);
    let ids = new_voices(new_segments, new_turns);
    let old = evidence(session_segments, a, b);
    lemma_new_voices_ok(new_segments, new_turns);
    lemma_build_map_len(ids, new_segments, old, ks, kt);
    let fs = new_segments.filter(|g: Segment| brought_in(g.speaker));
    let ft = new_turns.filter(|t: Turn| brought_in(t.speaker));
    let rs = renamed_segments(new_segments, map);
    let rt = renamed_turns(new_turns, map);
    let all_s = ks + rs;
    let all_t = kt + rt;
    assert forall|j: int|
        0 <= j < new_segments.len() && (#[trigger] new_segments[j].speaker == OVERLAP_SPEAKER
            || new_segments[j].speaker == UNASSIGNED_SPEAKER) implies merged_segments(
        session_segments,
        session_turns,
        new_segments,
        new_turns,
        a,
        b,
    ).contains(new_segments[j]) by {
        let x = new_segments[j];
        let pred = |g: Segment| brought_in(g.speaker);
        assert(pred(x));
        assert(fs.contains(x));
        let k = choose|k: int| 0 <= k < fs.len() && fs[k] == x;
        assert(rs[k] == rename_segment(map, x));
        assert(rename_segment(map, x) == x);
        assert(all_s[ks.len() + k] == x);
        lemma_sorted_contains(all_s, |g: Segment| segment_start(g), x);
    }
    assert forall|j: int|
        0 <= j < new_turns.len() && (#[trigger] new_turns[j].speaker == OVERLAP_SPEAKER
            || new_turns[j].speaker == UNASSIGNED_SPEAKER) implies merged_turns(
        session_segments,
        session_turns,
        new_segments,
        new_turns,
        a,
        b,
    ).contains(new_turns[j]) by {
        let x = new_turns[j];
        let pred = |t: Turn| brought_in(t.speaker);
        assert(pred(x));
        assert(ft.contains(x));
        let k = choose|k: int| 0 <= k < ft.len() && ft[k] == x;
        assert(rt[k] == rename_turn(map, x));
        assert(rename_turn(map, x) == x);
        assert(all_t[kt.len() + k] == x);
        lemma_sorted_contains(all_t, |t: Turn| turn_start(t), x);
    }
}

/// A new voice that overlaps an old voice inside the range by at least
/// 0.3 s, more than any other old voice, takes that old voice's id.
pub proof fn merge_follows_overlap(
    session_segments: Seq<Segment>,
    session_turns: Seq<Turn>,
    new_segments: Seq<Segment>,
    new_turns: Seq<Turn>,
    a: u64,
    b: u64,
    speaker: u8,
    old_speaker: u8,
    shared_time: int,
)
    requires
        new_voices(new_segments, new_turns).contains(speaker),
        best_match(new_segments, evidence(session_segments, a, b), speaker) == Some(
            (old_speaker, shared_time),
        ),
        shared_time >= MIN_SHARED,
    ensures
        renamed(
            merge_map(session_segments, session_turns, new_segments, new_turns, a, b),
            speaker,
        ) == old_speaker,
{
    let ids = new_voices(new_segments, new_turns);
    let old = evidence(session_segments, a, b);
    let ks = kept_segments(session_segments, a, b);
    let kt = kept_turns(session_turns, a, b);
    lemma_new_voices_ok(new_segments, new_turns);
    let k = choose|k: int| 0 <= k < ids.len() && ids[k] == speaker;
    lemma_build_map_at(ids, new_segments, old, ks, kt, k);
    lemma_build_map_len(ids, new_segments, old, ks, kt);
    assert forall|i: int| 0 <= i < ids.take(k).len() implies #[trigger] ids.take(k)[i] < ME by {
        assert(ids.take(k)[i] == ids[i]);
    }
    lemma_build_map_len(ids.take(k), new_segments, old, ks, kt);
}

} // verus!
