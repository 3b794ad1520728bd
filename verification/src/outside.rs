//! The calls this library makes into outside crates, each with the contract
//! that the rest of the library relies on.
use vstd::prelude::*;

verus! {

/// Character `v` (0 to 63) of the standard base64 alphabet: `A`-`Z`,
/// `a`-`z`, `0`-`9`, `+`, `/`.
pub open spec fn base64_digit(v: int) -> char {
    if v < 26 {
        (65 + v) as char
    } else if v < 52 {
        (97 + v - 26) as char
    } else if v < 62 {
        (48 + v - 52) as char
    } else if v == 62 {
        '+'
    } else {
        '/'
    }
}

/// The standard (RFC 4648, padded) base64 text of a byte string: each
/// group of three bytes becomes four characters of six bits each, and a
/// last group of one or two bytes is filled with zero bits and padded with
/// `=` to four characters.
#[verifier::opaque]
pub open spec fn base64_standard(data: Seq<u8>) -> Seq<char>
    decreases data.len(),
{
    if data.len() == 0 {
        Seq::empty()
    } else if data.len() == 1 {
        seq![base64_digit((data[0] as int) / 4), base64_digit(((data[0] as int) % 4) * 16), '=', '=']
    } else if data.len() == 2 {
        seq![
            base64_digit((data[0] as int) / 4),
            base64_digit(((data[0] as int) % 4) * 16 + (data[1] as int) / 16),
            base64_digit(((data[1] as int) % 16) * 4),
            '=',
        ]
    } else {
        seq![
            base64_digit((data[0] as int) / 4),
            base64_digit(((data[0] as int) % 4) * 16 + (data[1] as int) / 16),
            base64_digit(((data[1] as int) % 16) * 4 + (data[2] as int) / 64),
            base64_digit((data[2] as int) % 64),
        ] + base64_standard(data.skip(3))
    }
}

/// Number of characters in the padded base64 text of `n` bytes.
pub open spec fn base64_len(n: nat) -> nat {
    4 * ((n + 2) / 3)
}

/// Largest input that `base64_encode` takes: beyond it the crate's length
/// computation overflows and `encode` panics.
pub open spec fn base64_fits(n: nat) -> bool {
    4 * ((n + 2) / 3) <= usize::MAX
}

/// Calls `base64::Engine::encode` on `general_purpose::STANDARD`. Claims the
/// result is the standard padded encoding of `data` (the crate's STANDARD
/// alphabet with padding, as RFC 4648 defines it), with the length that the
/// crate's `encoded_len` computes for padded output.
#[verifier::external_body]
pub(crate) fn base64_encode(data: &[u8]) -> (r: String)
    requires
        base64_fits(data@.len()),
    ensures
        r@ == base64_standard(data@),
        r@.len() == base64_len(data@.len()),
{
    base64::Engine::encode(&base64::engine::general_purpose::STANDARD, data)
}

/// Lower-case hexadecimal digits.
pub open spec fn is_lower_hex(c: char) -> bool {
    (48 <= (c as u32) <= 57) || (97 <= (c as u32) <= 102)
}

/// The lower-case hex digit of `v`, from 0 to 15.
pub open spec fn hex_digit(v: int) -> char {
    if v < 10 {
        (48 + v) as char
    } else {
        (87 + v) as char
    }
}

/// How many of the positions 8, 13, 18 and 23 lie below `n`: the hyphens
/// before position `n` of a UUID's hyphenated text.
pub open spec fn hyphens_before(n: int) -> int {
    (if n > 8 {
        1int
    } else {
        0
    }) + (if n > 13 {
        1int
    } else {
        0
    }) + (if n > 18 {
        1int
    } else {
        0
    }) + (if n > 23 {
        1int
    } else {
        0
    })
}

/// Byte `i` of the version-4 UUID built from the random bytes `b`: the
/// high four bits of byte 6 hold the version, 4, and the high two bits of
/// byte 8 hold the variant, binary 10.
pub open spec fn v4_byte(b: Seq<u8>, i: int) -> int {
    if i == 6 {
        (b[6] as int) % 16 + 64
    } else if i == 8 {
        (b[8] as int) % 64 + 128
    } else {
        b[i] as int
    }
}

/// The hyphenated lower-case text of the version-4 UUID built from the
/// random bytes `b`: two hex digits per byte, high half first, with
/// hyphens at 8, 13, 18 and 23.
pub open spec fn v4_uuid_text(b: Seq<u8>) -> Seq<char> {
    Seq::new(
        36,
        |k: int|
            if k == 8 || k == 13 || k == 18 || k == 23 {
                '-'
            } else {
                let d = k - hyphens_before(k);
                if d % 2 == 0 {
                    hex_digit(v4_byte(b, d / 2) / 16)
                } else {
                    hex_digit(v4_byte(b, d / 2) % 16)
                }
            },
    )
}

/// The hyphenated text of a version-4 UUID: 36 characters, hyphens at 8,
/// 13, 18 and 23, lower-case hex digits elsewhere, and a `4` at 14.
pub open spec fn is_v4_uuid_text(s: Seq<char>) -> bool {
    &&& s.len() == 36
    &&& forall|i: int|
        0 <= i < 36 ==> if i == 8 || i == 13 || i == 18 || i == 23 {
            #[trigger] s[i] == '-'
        } else {
            is_lower_hex(s[i])
        }
    &&& s[14] == '4'
}

/// Calls `getrandom::fill` on sixteen bytes: the system's random source.
/// The bytes are random, so nothing is claimed of them; where the source
/// fails, `fill` returns its error and this returns none.
#[verifier::external_body]
pub(crate) fn random_bytes() -> (r: Option<[u8; 16]>) {
    let mut bytes = [0u8; 16];
    match getrandom::fill(&mut bytes) {
        Ok(()) => Some(bytes),
        Err(_) => None,
    }
}

/// Calls `uuid::Builder::from_random_bytes(bytes).into_uuid()` and formats
/// the UUID with `to_string`. Claims the crate's behaviour: the builder
/// sets the version bits of byte 6 to 4 and the variant bits of byte 8 to
/// binary 10, and the crate's `Display` writes the hyphenated lower-case
/// hex form.
#[verifier::external_body]
pub(crate) fn uuid_v4_text(bytes: [u8; 16]) -> (r: String)
    ensures
        r@ == v4_uuid_text(bytes@),
{
    uuid::Builder::from_random_bytes(bytes).into_uuid().to_string()
}

/// An ASCII decimal digit.
pub open spec fn is_ascii_digit(c: char) -> bool {
    48 <= (c as u32) <= 57
}

/// Whether `s` is a UTC time to the second as RFC 3339 writes it,
/// `YYYY-MM-DDTHH:MM:SSZ`: the year is four digits, or `+` and more digits
/// past year 9999, and the last sixteen characters are `-MM-DDTHH:MM:SSZ`
/// with digits in place of the letters.
pub open spec fn is_utc_timestamp(s: Seq<char>) -> bool {
    let n = s.len() as int;
    let year = s.take(n - 16);
    let rest = s.skip(n - 16);
    &&& n >= 20
    &&& (year.len() == 4 && forall|i: int| 0 <= i < 4 ==> is_ascii_digit(#[trigger] year[i]))
        || (year.len() >= 5 && year[0] == '+' && forall|i: int|
        1 <= i < year.len() ==> is_ascii_digit(#[trigger] year[i]))
    &&& rest[0] == '-' && rest[3] == '-' && rest[6] == 'T' && rest[9] == ':' && rest[12] == ':'
        && rest[15] == 'Z'
    &&& forall|i: int|
        0 <= i < 15 && i != 0 && i != 3 && i != 6 && i != 9 && i != 12 ==> is_ascii_digit(
            #[trigger] rest[i],
        )
}

#[verifier::external_type_specification]
#[verifier::external_body]
pub struct ExSystemTime(std::time::SystemTime);

/// Calls `std::time::SystemTime::now()`: what the system clock reads.
/// Nothing is claimed of it.
#[verifier::external_body]
pub(crate) fn system_time_now() -> (r: std::time::SystemTime) {
    std::time::SystemTime::now()
}

/// Calls `SystemTime::duration_since(UNIX_EPOCH)`: how long after the
/// start of 1970 `t` is, or none where `t` is earlier (the call's error).
/// Nothing more is claimed: what `t` holds is the clock's.
#[verifier::external_body]
pub(crate) fn since_unix_epoch(t: &std::time::SystemTime) -> (r: Option<core::time::Duration>) {
    match t.duration_since(std::time::UNIX_EPOCH) {
        Ok(d) => Some(d),
        Err(_) => None,
    }
}

/// Calls `Duration::as_secs`: the whole seconds of `d`. Nothing is
/// claimed of the number, as the duration is the clock's.
#[verifier::external_body]
pub(crate) fn whole_seconds(d: &core::time::Duration) -> (r: u64) {
    d.as_secs()
}

/// What `chrono` writes for the UTC time `secs` seconds after the start of
/// 1970, to the second, as RFC 3339 text ending in `Z`.
pub uninterp spec fn rfc3339_utc_text(secs: i64) -> Seq<char>;

/// The last second of the year 9999.
pub open spec fn last_four_digit_second() -> int {
    253402300799
}

/// Calls `chrono::DateTime::<Utc>::from_timestamp(secs, 0)` and, where that
/// gives a time, `to_rfc3339_opts(SecondsFormat::Secs, true)` on it. The
/// crate returns none only beyond its range of years (about 262,000 either
/// side of year 0), so from 1970 to the end of 9999 there is always a
/// time. The crate's `write_rfc3339` writes the year as four digits (a
/// `+` and more digits past 9999), then two digits each for month, day,
/// hour, minute and second with their separators, and `Z` for UTC.
#[verifier::external_body]
pub(crate) fn utc_rfc3339_at(secs: i64) -> (r: Option<String>)
    ensures
        r matches Some(s) ==> s@ == rfc3339_utc_text(secs),
        0 <= secs <= last_four_digit_second() ==> r is Some,
        0 <= secs && r is Some ==> is_utc_timestamp(r->0@),
{
    match chrono::DateTime::<chrono::Utc>::from_timestamp(secs, 0) {
        Some(t) => Some(t.to_rfc3339_opts(chrono::SecondsFormat::Secs, true)),
        None => None,
    }
}

} // verus!
