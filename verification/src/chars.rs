//! Character-level helpers shared by the text rules: Unicode white space,
//! trimming, decimal digits, and building strings one character at a time.
use vstd::prelude::*;

verus! {

/// Unicode `White_Space`, the set that `char::is_whitespace` tests.
pub open spec fn is_space(c: char) -> bool {
    let u = c as u32;
    ||| 9 <= u <= 13
    ||| u == 32
    ||| u == 0x85
    ||| u == 0xA0
    ||| u == 0x1680
    ||| 0x2000 <= u <= 0x200A
    ||| u == 0x2028
    ||| u == 0x2029
    ||| u == 0x202F
    ||| u == 0x205F
    ||| u == 0x3000
}

pub fn space(c: char) -> (r: bool)
    ensures
        r == is_space(c),
{
    let u = c as u32;
    (9 <= u && u <= 13) || u == 32 || u == 0x85 || u == 0xA0 || u == 0x1680 || (0x2000 <= u && u
        <= 0x200A) || u == 0x2028 || u == 0x2029 || u == 0x202F || u == 0x205F || u == 0x3000
}

/// The sequence without its leading white space.
pub open spec fn trim_start(s: Seq<char>) -> Seq<char>
    decreases s.len(),
{
    if s.len() > 0 && is_space(s[0]) {
        trim_start(s.drop_first())
    } else {
        s
    }
}

/// The sequence without its trailing white space.
pub open spec fn trim_end(s: Seq<char>) -> Seq<char>
    decreases s.len(),
{
    if s.len() > 0 && is_space(s.last()) {
        trim_end(s.drop_last())
    } else {
        s
    }
}

/// What `str::trim` leaves of a string.
pub open spec fn trim(s: Seq<char>) -> Seq<char> {
    trim_end(trim_start(s))
}

/// At most the first `n` elements.
pub open spec fn prefix<A>(s: Seq<A>, n: int) -> Seq<A> {
    if s.len() <= n {
        s
    } else {
        s.take(n)
    }
}

pub proof fn lemma_trim_start_skip(s: Seq<char>, i: int)
    requires
        0 <= i <= s.len(),
        forall|k: int| 0 <= k < i ==> is_space(#[trigger] s[k]),
        i == s.len() || !is_space(s[i]),
    ensures
        trim_start(s) == s.skip(i),
    decreases i,
{
    if i == 0 {
        assert(s.skip(0) =~= s);
    } else {
        assert(is_space(s[0]));
        let t = s.drop_first();
        assert forall|k: int| 0 <= k < i - 1 implies is_space(#[trigger] t[k]) by {
            assert(t[k] == s[k + 1]);
        }
        lemma_trim_start_skip(t, i - 1);
        assert(t.skip(i - 1) =~= s.skip(i));
    }
}

pub proof fn lemma_trim_end_take(s: Seq<char>, j: int)
    requires
        0 <= j <= s.len(),
        forall|k: int| j <= k < s.len() ==> is_space(#[trigger] s[k]),
        j == 0 || !is_space(s[j - 1]),
    ensures
        trim_end(s) == s.take(j),
    decreases s.len() - j,
{
    if j == s.len() {
        assert(s.take(j) =~= s);
    } else {
        assert(is_space(s.last()));
        let t = s.drop_last();
        assert forall|k: int| j <= k < t.len() implies is_space(#[trigger] t[k]) by {
            assert(t[k] == s[k]);
        }
        if j > 0 {
            assert(t[j - 1] == s[j - 1]);
        }
        lemma_trim_end_take(t, j);
        assert(t.take(j) =~= s.take(j));
    }
}

/// The bounds of `v[a..b]` once trimmed.
pub fn trim_range(v: &Vec<char>, a: usize, b: usize) -> (r: (usize, usize))
    requires
        a <= b <= v.len(),
    ensures
        a <= r.0 <= r.1 <= b,
        v@.subrange(r.0 as int, r.1 as int) == trim(v@.subrange(a as int, b as int)),
{
    let mut lo = a;
    while lo < b && space(v[lo])
        invariant
            a <= lo <= b <= v.len(),
            forall|k: int| a <= k < lo ==> is_space(#[trigger] v@[k]),
        decreases b - lo,
    {
        lo = lo + 1;
    }
    let mut hi = b;
    while hi > lo && space(v[hi - 1])
        invariant
            a <= lo <= hi <= b <= v.len(),
            forall|k: int| hi <= k < b ==> is_space(#[trigger] v@[k]),
        decreases hi - lo,
    {
        hi = hi - 1;
    }
    proof {
        let s = v@.subrange(a as int, b as int);
        assert forall|k: int| 0 <= k < lo - a implies is_space(#[trigger] s[k]) by {
            assert(s[k] == v@[a + k]);
        }
        if lo < b {
            assert(s[lo - a] == v@[lo as int]);
        }
        lemma_trim_start_skip(s, lo - a);
        let t = s.skip(lo - a);
        assert(t =~= v@.subrange(lo as int, b as int));
        assert forall|k: int| hi - lo <= k < t.len() implies is_space(#[trigger] t[k]) by {
            assert(t[k] == v@[lo + k]);
        }
        if hi > lo {
            assert(t[hi - lo - 1] == v@[hi - 1]);
        }
        lemma_trim_end_take(t, hi - lo);
        assert(t.take(hi - lo) =~= v@.subrange(lo as int, hi as int));
    }
    (lo, hi)
}

/// The characters of a string slice, in order.
pub fn chars_of(s: &str) -> (v: Vec<char>)
    ensures
        v@ == s@,
{
    let mut v: Vec<char> = Vec::new();
    for c in it: s.chars()
        invariant
            v@ == it.seq().take(it.index() as int),
            it.seq() == s@,
    {
        v.push(c);
    }
    v
}

/// Appends one character (std's `String::push`).
#[verifier::external_body]
pub(crate) fn push_char(s: &mut String, c: char)
    ensures
        final(s)@ == old(s)@.push(c),
{
    s.push(c);
}

/// Appends `v[a..b]`.
pub fn push_range(out: &mut String, v: &Vec<char>, a: usize, b: usize)
    requires
        a <= b <= v.len(),
    ensures
        final(out)@ == old(out)@ + v@.subrange(a as int, b as int),
{
    let mut i = a;
    while i < b
        invariant
            a <= i <= b <= v.len(),
            out@ == old(out)@ + v@.subrange(a as int, i as int),
        decreases b - i,
    {
        push_char(out, v[i]);
        assert(v@.subrange(a as int, i + 1) =~= v@.subrange(a as int, i as int).push(v@[i as int]));
        i = i + 1;
    }
}

/// A string made of `v[a..b]`.
pub fn string_of(v: &Vec<char>, a: usize, b: usize) -> (s: String)
    requires
        a <= b <= v.len(),
    ensures
        s@ == v@.subrange(a as int, b as int),
{
    let mut s = String::new();
    push_range(&mut s, v, a, b);
    assert(Seq::<char>::empty() + v@.subrange(a as int, b as int) =~= v@.subrange(a as int, b as int));
    s
}

/// Whether two strings hold the same characters.
pub fn str_eq(a: &str, b: &str) -> (r: bool)
    ensures
        r == (a@ == b@),
{
    let x = chars_of(a);
    let y = chars_of(b);
    chars_eq(&x, &y)
}

pub fn chars_eq(x: &Vec<char>, y: &Vec<char>) -> (r: bool)
    ensures
        r == (x@ == y@),
{
    if x.len() != y.len() {
        return false;
    }
    let mut i: usize = 0;
    while i < x.len()
        invariant
            x.len() == y.len(),
            0 <= i <= x.len(),
            forall|k: int| 0 <= k < i ==> x@[k] == y@[k],
        decreases x.len() - i,
    {
        if x[i] != y[i] {
            return false;
        }
        i = i + 1;
    }
    assert(x@ =~= y@);
    true
}

/// Whether `v[at..]` begins with `pat`.
pub fn starts_at(v: &Vec<char>, at: usize, pat: &Vec<char>) -> (r: bool)
    requires
        at <= v.len(),
    ensures
        r == (at + pat.len() <= v.len() && v@.subrange(at as int, at + pat.len()) == pat@),
{
    if pat.len() > v.len() - at {
        return false;
    }
    let mut i: usize = 0;
    while i < pat.len()
        invariant
            at + pat.len() <= v.len(),
            0 <= i <= pat.len(),
            forall|k: int| 0 <= k < i ==> v@[at + k] == pat@[k],
        decreases pat.len() - i,
    {
        if v[at + i] != pat[i] {
            assert(v@.subrange(at as int, at + pat.len())[i as int] == v@[at + i]);
            return false;
        }
        i = i + 1;
    }
    assert(v@.subrange(at as int, at + pat.len()) =~= pat@);
    true
}

/// The decimal digit for `d < 10`.
pub open spec fn digit_char(d: nat) -> char {
    ((d + 48) as u32) as char
}

/// The decimal numeral of `n`, as `format!("{}", n)` writes it.
pub open spec fn decimal(n: nat) -> Seq<char>
    decreases n,
{
    if n < 10 {
        seq![digit_char(n)]
    } else {
        decimal(n / 10).push(digit_char(n % 10))
    }
}

/// Appends the decimal numeral of `n`.
pub fn push_decimal(out: &mut String, n: u64)
    ensures
        final(out)@ == old(out)@ + decimal(n as nat),
    decreases n,
{
    if n >= 10 {
        push_decimal(out, n / 10);
    }
    let d = (n % 10) as u8;
    let c = (48 + d) as char;
    push_char(out, c);
    proof {
        assert(c == digit_char((n % 10) as nat));
        if n >= 10 {
            assert(decimal(n as nat) == decimal((n / 10) as nat).push(digit_char((n % 10) as nat)));
        }
    }
}

/// Whether `c` is one of `0`..=`9`.
pub open spec fn is_digit(c: char) -> bool {
    48 <= (c as u32) <= 57
}

/// The value of a non-empty run of decimal digits.
pub open spec fn digits_value(s: Seq<char>) -> nat
    decreases s.len(),
{
    if s.len() == 0 {
        0
    } else {
        (10 * digits_value(s.drop_last()) + ((s.last() as u32) - 48)) as nat
    }
}

/// What `str::parse::<u64>` accepts: an optional `+`, then at least one
/// digit and nothing else, with a value that fits in 64 bits.
pub open spec fn u64_digits(s: Seq<char>) -> Seq<char> {
    if s.len() > 0 && s[0] == '+' {
        s.drop_first()
    } else {
        s
    }
}

pub open spec fn parses_u64(s: Seq<char>) -> bool {
    let d = u64_digits(s);
    &&& d.len() > 0
    &&& forall|i: int| 0 <= i < d.len() ==> is_digit(#[trigger] d[i])
    &&& digits_value(d) <= u64::MAX
}

pub open spec fn parse_u64_spec(s: Seq<char>) -> Option<u64> {
    if parses_u64(s) {
        Some(digits_value(u64_digits(s)) as u64)
    } else {
        None
    }
}

proof fn lemma_digits_value_grows(s: Seq<char>, i: int)
    requires
        0 <= i <= s.len(),
        forall|k: int| 0 <= k < s.len() ==> is_digit(#[trigger] s[k]),
    ensures
        digits_value(s.take(i)) <= digits_value(s),
    decreases s.len() - i,
{
    if i < s.len() {
        lemma_digits_value_grows(s, i + 1);
        assert(s.take(i + 1).drop_last() =~= s.take(i));
    } else {
        assert(s.take(i) =~= s);
    }
}

/// `str::parse::<u64>` on `v[a..b]`.
pub fn parse_u64(v: &Vec<char>, a: usize, b: usize) -> (r: Option<u64>)
    requires
        a <= b <= v.len(),
    ensures
        r == parse_u64_spec(v@.subrange(a as int, b as int)),
{
    let ghost s = v@.subrange(a as int, b as int);
    let mut i = a;
    if i < b && v[i] == '+' {
        i = i + 1;
    }
    let ghost d = v@.subrange(i as int, b as int);
    assert(d =~= u64_digits(s));
    if i == b {
        return None;
    }
    let start = i;
    let mut value: u64 = 0;
    while i < b
        invariant
            a <= start <= i <= b <= v.len(),
            d == v@.subrange(start as int, b as int),
            d == u64_digits(s),
            s == v@.subrange(a as int, b as int),
            forall|k: int| start <= k < i ==> is_digit(#[trigger] v@[k]),
            value as nat == digits_value(v@.subrange(start as int, i as int)),
        decreases b - i,
    {
        let c = v[i];
        let u = c as u32;
        if u < 48 || u > 57 {
            assert(d[i - start] == c);
            assert(!is_digit(d[i - start]));
            return None;
        }
        let dv = (u - 48) as u64;
        assert(v@.subrange(start as int, i + 1).drop_last() =~= v@.subrange(start as int, i as int));
        if value > (u64::MAX - dv) / 10 {
            proof {
                let p = v@.subrange(start as int, i + 1);
                assert(digits_value(p) > u64::MAX) by (nonlinear_arith)
                    requires
                        value > (u64::MAX - dv) / 10,
                        digits_value(p) == 10 * value + dv,
                        dv <= 9,
                ;
                // every later digit keeps the value at least as large
                let rest = v@.subrange(start as int, b as int);
                assert(p =~= rest.take(i + 1 - start));
                if forall|k: int| 0 <= k < rest.len() ==> is_digit(#[trigger] rest[k]) {
                    lemma_digits_value_grows(rest, i + 1 - start);
                }
                assert(!parses_u64(s));
            }
            return None;
        }
        proof {
            assert(10 * value + dv <= u64::MAX) by (nonlinear_arith)
                requires
                    value <= (u64::MAX - dv) / 10,
                    dv <= 9,
            ;
        }
        value = value * 10 + dv;
        i = i + 1;
    }
    assert(v@.subrange(start as int, i as int) =~= d);
    Some(value)
}

} // verus!
