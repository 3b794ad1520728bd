//! Text rules: cleaning titles and names, the first line of a message,
//! GPU names, download progress, HTML escaping and file-name checks.
use vstd::prelude::*;

use crate::chars::{
    chars_of, is_digit, is_space, prefix, push_char, push_range, space, starts_at, str_eq, string_of,
    trim, trim_range,
};

verus! {

/// Carriage returns and line feeds become spaces.
pub open spec fn unwrap_lines(s: Seq<char>) -> Seq<char> {
    s.map_values(|c: char| if c == '\r' || c == '\n' { ' ' } else { c })
}

/// Trimmed, on one line, and at most `limit` characters long.
pub open spec fn one_line(s: Seq<char>, limit: int) -> Seq<char> {
    prefix(unwrap_lines(trim(s)), limit)
}

/// The one-line, trimmed form of `value`, at most `limit` characters long.
pub fn clean_line(value: &str, limit: usize) -> (r: String)
    ensures
        r@ == one_line(value@, limit as int),
{
    let v = chars_of(value);
    let (lo, hi) = trim_range(&v, 0, v.len());
    let end = if hi - lo <= limit {
        hi
    } else {
        lo + limit
    };
    let mut out = String::new();
    let mut i = lo;
    while i < end
        invariant
            lo <= i <= end <= hi <= v.len(),
            out@ == unwrap_lines(v@.subrange(lo as int, i as int)),
        decreases end - i,
    {
        let c = v[i];
        let d = if c == '\r' || c == '\n' {
            ' '
        } else {
            c
        };
        push_char(&mut out, d);
        assert(unwrap_lines(v@.subrange(lo as int, i + 1)) =~= unwrap_lines(
            v@.subrange(lo as int, i as int),
        ).push(d));
        i = i + 1;
    }
    proof {
        let t = v@.subrange(lo as int, hi as int);
        assert(v@.subrange(0, v@.len() as int) =~= value@);
        if t.len() <= limit {
            assert(v@.subrange(lo as int, end as int) =~= t);
        } else {
            assert(unwrap_lines(v@.subrange(lo as int, end as int)) =~= unwrap_lines(t).take(
                limit as int,
            ));
        }
    }
    out
}

/// The title that `clean_title` keeps.
pub open spec fn clean_title_spec(value: Seq<char>) -> Seq<char> {
    let t = one_line(value, 140);
    if t.len() == 0 {
        "Untitled"@
    } else {
        t
    }
}

/// A session title: trimmed, line breaks turned into spaces, at most 140
/// characters, and "Untitled" where nothing is left.
pub fn clean_title(value: &str) -> (r: String)
    ensures
        r@ == clean_title_spec(value@),
{
    let t = clean_line(value, 140);
    if t.as_str().unicode_len() == 0 {
        String::from_str("Untitled")
    } else {
        t
    }
}

/// Index of the first line feed in `s`, or its length.
pub open spec fn line_end(s: Seq<char>) -> int
    decreases s.len(),
{
    if s.len() == 0 || s[0] == '\n' {
        0
    } else {
        1 + line_end(s.drop_first())
    }
}

pub proof fn lemma_line_end(s: Seq<char>, k: int)
    requires
        0 <= k <= s.len(),
        forall|j: int| 0 <= j < k ==> #[trigger] s[j] != '\n',
        k == s.len() || s[k] == '\n',
    ensures
        line_end(s) == k,
    decreases k,
{
    if k > 0 {
        let t = s.drop_first();
        assert forall|j: int| 0 <= j < k - 1 implies #[trigger] t[j] != '\n' by {
            assert(t[j] == s[j + 1]);
        }
        if k < s.len() {
            assert(t[k - 1] == s[k]);
        }
        lemma_line_end(t, k - 1);
    }
}

pub proof fn lemma_line_end_bound(s: Seq<char>)
    ensures
        0 <= line_end(s) <= s.len(),
    decreases s.len(),
{
    if s.len() > 0 && s[0] != '\n' {
        lemma_line_end_bound(s.drop_first());
    }
}

/// The first line of `s` (split at line feeds) that is not blank, trimmed;
/// empty where there is none.
pub open spec fn first_text_line(s: Seq<char>) -> Seq<char>
    decreases s.len(),
{
    let k = line_end(s);
    if trim(s.take(k)).len() > 0 {
        trim(s.take(k))
    } else if k >= s.len() {
        Seq::empty()
    } else {
        proof {
            lemma_line_end_bound(s);
        }
        first_text_line(s.skip(k + 1))
    }
}

/// The message line that `short_line` shows.
pub open spec fn short_line_spec(text: Seq<char>) -> Seq<char> {
    let line = first_text_line(text);
    if line.len() > 180 {
        line.take(177).push('\u{2026}')
    } else {
        line
    }
}

/// The first non-blank line of `text`, trimmed, and cut to 177 characters
/// and an ellipsis where it is longer than 180.
pub fn short_line(text: &str) -> (r: String)
    ensures
        r@ == short_line_spec(text@),
{
    let v = chars_of(text);
    let n = v.len();
    let mut start: usize = 0;
    let mut lo: usize = 0;
    let mut hi: usize = 0;
    assert(v@.skip(0) =~= v@);
    loop
        invariant
            start <= n == v.len(),
            v@ == text@,
            first_text_line(v@) == first_text_line(v@.skip(start as int)),
            lo <= hi <= n,
        ensures
            lo <= hi <= n,
            v@.subrange(lo as int, hi as int) == first_text_line(v@),
        decreases n - start,
    {
        let mut k = start;
        while k < n && v[k] != '\n'
            invariant
                start <= k <= n == v.len(),
                forall|j: int| start <= j < k ==> #[trigger] v@[j] != '\n',
            decreases n - k,
        {
            k = k + 1;
        }
        let ghost s = v@.skip(start as int);
        proof {
            assert forall|j: int| 0 <= j < k - start implies #[trigger] s[j] != '\n' by {
                assert(s[j] == v@[start + j]);
            }
            if k < n {
                assert(s[k - start] == v@[k as int]);
            }
            lemma_line_end(s, k - start);
            assert(s.take(k - start) =~= v@.subrange(start as int, k as int));
        }
        let (a, b) = trim_range(&v, start, k);
        if b > a {
            lo = a;
            hi = b;
            break;
        }
        if k == n {
            lo = 0;
            hi = 0;
            assert(v@.subrange(0, 0) =~= Seq::<char>::empty());
            break;
        }
        assert(s.skip(k - start + 1) =~= v@.skip(k + 1));
        start = k + 1;
    }
    let len = hi - lo;
    let mut out = String::new();
    if len > 180 {
        push_range(&mut out, &v, lo, lo + 177);
        push_char(&mut out, '\u{2026}');
        assert(v@.subrange(lo as int, lo + 177) =~= v@.subrange(lo as int, hi as int).take(177));
        assert(Seq::<char>::empty() + v@.subrange(lo as int, lo + 177) =~= v@.subrange(
            lo as int,
            lo + 177,
        ));
    } else {
        push_range(&mut out, &v, lo, hi);
        assert(Seq::<char>::empty() + v@.subrange(lo as int, hi as int) =~= v@.subrange(
            lo as int,
            hi as int,
        ));
    }
    out
}

/// ASCII lower-case letters in upper case, everything else unchanged.
pub open spec fn ascii_upper(c: char) -> char {
    if 97 <= (c as u32) <= 122 {
        ((c as u32) - 32) as char
    } else {
        c
    }
}

pub open spec fn upper_all(s: Seq<char>) -> Seq<char> {
    s.map_values(|c: char| ascii_upper(c))
}

/// The first index at or after `i` where `pat` occurs in `s`.
pub open spec fn find_from(s: Seq<char>, pat: Seq<char>, i: int) -> Option<int>
    decreases s.len() + 1 - i,
{
    if i < 0 || i + pat.len() > s.len() {
        None
    } else if s.subrange(i, i + pat.len()) == pat {
        Some(i)
    } else {
        find_from(s, pat, i + 1)
    }
}

/// The first index at or after `i` that is white space, or the length.
pub open spec fn word_end(s: Seq<char>, i: int) -> int
    decreases s.len() - i,
{
    if i < 0 || i >= s.len() || is_space(s[i]) {
        if i < 0 {
            0
        } else if i > s.len() {
            s.len() as int
        } else {
            i
        }
    } else {
        word_end(s, i + 1)
    }
}

/// The first index at or after `i` that is not white space, or the length.
pub open spec fn space_end(s: Seq<char>, i: int) -> int
    decreases s.len() - i,
{
    if i < 0 || i >= s.len() || !is_space(s[i]) {
        if i < 0 {
            0
        } else if i > s.len() {
            s.len() as int
        } else {
            i
        }
    } else {
        space_end(s, i + 1)
    }
}

/// The first two white-space separated words of `s` from `p` on, joined by
/// one space.
pub open spec fn two_words(s: Seq<char>, p: int) -> Seq<char> {
    let e1 = word_end(s, p);
    let j = space_end(s, e1);
    if j < s.len() {
        s.subrange(p, e1) + seq![' '] + s.subrange(j, word_end(s, j))
    } else {
        s.subrange(p, e1)
    }
}

/// The GPU label that `short_gpu` shows.
pub open spec fn short_gpu_spec(name: Seq<char>) -> Seq<char> {
    let upper = upper_all(name);
    match find_from(upper, "RTX"@, 0) {
        Some(p) => two_words(upper, p),
        None => match find_from(upper, "GTX"@, 0) {
            Some(p) => two_words(upper, p),
            None => if name.len() == 0 {
                "GPU"@
            } else {
                name
            },
        },
    }
}

fn upper_vec(v: &Vec<char>) -> (r: Vec<char>)
    ensures
        r@ == upper_all(v@),
{
    let mut r: Vec<char> = Vec::new();
    let mut i: usize = 0;
    while i < v.len()
        invariant
            i <= v.len(),
            r@ == upper_all(v@.take(i as int)),
        decreases v.len() - i,
    {
        let c = v[i];
        let u = c as u32;
        let d = if 97 <= u && u <= 122 {
            ((u - 32) as u8) as char
        } else {
            c
        };
        r.push(d);
        assert(upper_all(v@.take(i + 1)) =~= upper_all(v@.take(i as int)).push(d));
        i = i + 1;
    }
    assert(v@.take(v.len() as int) =~= v@);
    r
}

fn find_vec(v: &Vec<char>, pat: &Vec<char>) -> (r: Option<usize>)
    requires
        pat.len() > 0,
    ensures
        match r {
            Some(p) => find_from(v@, pat@, 0) == Some(p as int) && p + pat.len() <= v.len(),
            None => find_from(v@, pat@, 0) is None,
        },
{
    if pat.len() > v.len() {
        return None;
    }
    let mut i: usize = 0;
    while i <= v.len() - pat.len()
        invariant
            0 < pat.len() <= v.len(),
            i <= v.len() - pat.len() + 1,
            find_from(v@, pat@, 0) == find_from(v@, pat@, i as int),
        decreases v.len() - pat.len() + 1 - i,
    {
        if starts_at(v, i, pat) {
            return Some(i);
        }
        i = i + 1;
    }
    None
}

fn word_end_exec(v: &Vec<char>, i: usize) -> (r: usize)
    requires
        i <= v.len(),
    ensures
        r == word_end(v@, i as int),
        i <= r <= v.len(),
{
    let mut k = i;
    while k < v.len() && !space(v[k])
        invariant
            i <= k <= v.len(),
            word_end(v@, i as int) == word_end(v@, k as int),
        decreases v.len() - k,
    {
        k = k + 1;
    }
    k
}

fn space_end_exec(v: &Vec<char>, i: usize) -> (r: usize)
    requires
        i <= v.len(),
    ensures
        r == space_end(v@, i as int),
        i <= r <= v.len(),
{
    let mut k = i;
    while k < v.len() && space(v[k])
        invariant
            i <= k <= v.len(),
            space_end(v@, i as int) == space_end(v@, k as int),
        decreases v.len() - k,
    {
        k = k + 1;
    }
    k
}

fn two_words_exec(v: &Vec<char>, p: usize) -> (r: String)
    requires
        p <= v.len(),
    ensures
        r@ == two_words(v@, p as int),
{
    let e1 = word_end_exec(v, p);
    let j = space_end_exec(v, e1);
    let mut out = String::new();
    push_range(&mut out, v, p, e1);
    if j < v.len() {
        push_char(&mut out, ' ');
        let e2 = word_end_exec(v, j);
        push_range(&mut out, v, j, e2);
    }
    assert(Seq::<char>::empty() + v@.subrange(p as int, e1 as int) =~= v@.subrange(
        p as int,
        e1 as int,
    ));
    out
}

/// A short GPU label: from the first "RTX" (else "GTX") on, the first two
/// words in upper case; otherwise the name, or "GPU" where it is empty.
pub fn short_gpu(name: &str) -> (r: String)
    ensures
        r@ == short_gpu_spec(name@),
{
    let v = chars_of(name);
    let upper = upper_vec(&v);
    let rtx = chars_of("RTX");
    proof {
        reveal_strlit("RTX");
        reveal_strlit("GTX");
    }
    if let Some(p) = find_vec(&upper, &rtx) {
        return two_words_exec(&upper, p);
    }
    let gtx = chars_of("GTX");
    if let Some(p) = find_vec(&upper, &gtx) {
        return two_words_exec(&upper, p);
    }
    if v.len() == 0 {
        String::from_str("GPU")
    } else {
        String::from_str(name)
    }
}

/// The first index at or after `i` holding `c`.
pub open spec fn index_of(s: Seq<char>, c: char, i: int) -> Option<int>
    decreases s.len() - i,
{
    if i < 0 || i >= s.len() {
        None
    } else if s[i] == c {
        Some(i)
    } else {
        index_of(s, c, i + 1)
    }
}

/// Part of a progress number: a digit or a dot.
pub open spec fn is_number_char(c: char) -> bool {
    is_digit(c) || c == '.'
}

/// The last index below `j` that is not part of a number.
pub open spec fn last_non_number(s: Seq<char>, j: int) -> Option<int>
    decreases j,
{
    if j <= 0 || j > s.len() {
        None
    } else if !is_number_char(s[j - 1]) {
        Some(j - 1)
    } else {
        last_non_number(s, j - 1)
    }
}

/// Where `percent_of` can cut the line: the character in front of the
/// number is one byte long in UTF-8.
pub open spec fn percent_of_defined(line: Seq<char>) -> bool {
    match index_of(line, '%', 0) {
        None => true,
        Some(p) => match last_non_number(line, p) {
            None => true,
            Some(q) => (line[q] as u32) < 128,
        },
    }
}

/// The progress number in front of the first `%`, as `percent_of` reads it.
pub open spec fn percent_of_spec(line: Seq<char>) -> Option<Seq<char>> {
    match index_of(line, '%', 0) {
        None => None,
        Some(p) => match last_non_number(line, p) {
            None => None,
            Some(q) => {
                let number = trim(line.subrange(q + 1, p));
                if number.len() == 0 {
                    None
                } else {
                    Some(number)
                }
            },
        },
    }
}

fn percent_parts(v: &Vec<char>) -> (r: Option<(usize, usize)>)
    ensures
        match r {
            None => index_of(v@, '%', 0) is None || last_non_number(v@, index_of(
                v@,
                '%',
                0,
            )->0) is None,
            Some((q, p)) => index_of(v@, '%', 0) == Some(p as int) && last_non_number(v@, p as int)
                == Some(q as int) && q < p < v.len(),
        },
{
    let mut p: usize = 0;
    while p < v.len() && v[p] != '%'
        invariant
            p <= v.len(),
            index_of(v@, '%', 0) == index_of(v@, '%', p as int),
        decreases v.len() - p,
    {
        p = p + 1;
    }
    if p == v.len() {
        return None;
    }
    let mut j = p;
    while j > 0
        invariant
            j <= p < v.len(),
            index_of(v@, '%', 0) == Some(p as int),
            last_non_number(v@, p as int) == last_non_number(v@, j as int),
        decreases j,
    {
        let c = v[j - 1];
        let u = c as u32;
        if !((48 <= u && u <= 57) || c == '.') {
            return Some((j - 1, p));
        }
        j = j - 1;
    }
    None
}

/// Whether `percent_of` would cut the line inside a character.
pub fn percent_of_panics(line: &str) -> (r: bool)
    ensures
        r == !percent_of_defined(line@),
{
    let v = chars_of(line);
    match percent_parts(&v) {
        None => false,
        Some((q, _)) => (v[q] as u32) >= 128,
    }
}

/// The download progress number in a line of downloader output: the digits
/// and dots in front of the first `%`.
pub fn percent_of(line: &str) -> (r: Option<String>)
    requires
        percent_of_defined(line@),
    ensures
        match r {
            Some(s) => percent_of_spec(line@) == Some(s@),
            None => percent_of_spec(line@) is None,
        },
{
    let v = chars_of(line);
    match percent_parts(&v) {
        None => None,
        Some((q, p)) => {
            let (a, b) = trim_range(&v, q + 1, p);
            if a == b {
                None
            } else {
                Some(string_of(&v, a, b))
            }
        },
    }
}

/// The HTML escape of one character.
pub open spec fn escape_char(c: char) -> Seq<char> {
    if c == '&' {
        "&amp;"@
    } else if c == '<' {
        "&lt;"@
    } else if c == '>' {
        "&gt;"@
    } else if c == '"' {
        "&quot;"@
    } else {
        seq![c]
    }
}

/// `&`, `<`, `>` and `"` replaced by their HTML entities.
pub open spec fn escaped(s: Seq<char>) -> Seq<char>
    decreases s.len(),
{
    if s.len() == 0 {
        Seq::empty()
    } else {
        escaped(s.drop_last()) + escape_char(s.last())
    }
}

/// Appends the HTML escape of `value`.
pub fn push_escaped(out: &mut String, value: &str)
    ensures
        final(out)@ == old(out)@ + escaped(value@),
{
    let v = chars_of(value);
    let mut i: usize = 0;
    while i < v.len()
        invariant
            i <= v.len(),
            v@ == value@,
            out@ == old(out)@ + escaped(v@.take(i as int)),
        decreases v.len() - i,
    {
        let c = v[i];
        let ghost before = out@;
        if c == '&' {
            out.append("&amp;");
        } else if c == '<' {
            out.append("&lt;");
        } else if c == '>' {
            out.append("&gt;");
        } else if c == '"' {
            out.append("&quot;");
        } else {
            push_char(out, c);
            assert(before.push(c) =~= before + seq![c]);
        }
        assert(v@.take(i + 1).drop_last() =~= v@.take(i as int));
        assert(out@ =~= old(out)@ + escaped(v@.take(i + 1)));
        i = i + 1;
    }
    assert(v@.take(v.len() as int) =~= v@);
}

/// `value` with `&`, `<`, `>` and `"` written as HTML entities.
pub fn html_escape(value: &str) -> (r: String)
    ensures
        r@ == escaped(value@),
{
    let mut out = String::new();
    push_escaped(&mut out, value);
    assert(Seq::<char>::empty() + escaped(value@) =~= escaped(value@));
    out
}

/// Extensions whose media has a picture to show.
pub open spec fn is_video_ext(ext: Seq<char>) -> bool {
    ext == "mp4"@ || ext == "webm"@ || ext == "m4v"@ || ext == "mov"@ || ext == "ogv"@
}

/// Whether `ext` (lower case, without the dot) names a video container.
pub fn video_ext(ext: &str) -> (r: bool)
    ensures
        r == is_video_ext(ext@),
{
    str_eq(ext, "mp4") || str_eq(ext, "webm") || str_eq(ext, "m4v") || str_eq(ext, "mov")
        || str_eq(ext, "ogv")
}

/// Extensions that can be imported.
pub open spec fn is_allowed_ext(ext: Seq<char>) -> bool {
    ||| ext == "wav"@
    ||| ext == "mp3"@
    ||| ext == "m4a"@
    ||| ext == "aac"@
    ||| ext == "flac"@
    ||| ext == "ogg"@
    ||| ext == "opus"@
    ||| ext == "webm"@
    ||| ext == "mp4"@
    ||| ext == "m4v"@
    ||| ext == "mov"@
    ||| ext == "mkv"@
    ||| ext == "avi"@
}

/// Whether a file with extension `ext` (lower case, without the dot) can be
/// imported.
pub fn allowed_ext(ext: &str) -> (r: bool)
    ensures
        r == is_allowed_ext(ext@),
{
    str_eq(ext, "wav") || str_eq(ext, "mp3") || str_eq(ext, "m4a") || str_eq(ext, "aac")
        || str_eq(ext, "flac") || str_eq(ext, "ogg") || str_eq(ext, "opus") || str_eq(ext, "webm")
        || str_eq(ext, "mp4") || str_eq(ext, "m4v") || str_eq(ext, "mov") || str_eq(ext, "mkv")
        || str_eq(ext, "avi")
}

} // verus!
