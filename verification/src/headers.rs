//! Parser for the ASCII preamble: tagged `$T,payload*HH` lines carrying the
//! tail number, configured limits, fuel-flow parameters, timestamp, hardware
//! configuration, per-flight directory and terminator records.
//!
//! Each line is an envelope `'$' T payload '*' HH` whose checksum `HH` must
//! equal the XOR of the UTF-8 bytes between `'$'` and `'*'`. The payload of
//! every record but `U` is a comma-separated list of decimal 16-bit numbers,
//! each optionally surrounded by spaces.

use crate::bits::xor8;
use crate::ErrorKind;
use vstd::prelude::*;
use vstd::string::StrSliceExecFns;

verus! {

/// Alarm limits configured on the monitor, from the `A` record.
#[derive(Clone, Copy, Default, Debug, PartialEq, Eq, Structural)]
pub struct ConfiguredLimits {
    pub volts_hi_times_ten: u16,
    pub volts_lo_times_ten: u16,
    pub dif: u16,
    pub cht: u16,
    pub cld: u16,
    pub tit: u16,
    pub oil_hi: u16,
    pub oil_lo: u16,
}

/// Fuel-flow option parameters, from the `F` record.
#[derive(Clone, Copy, Default, Debug, PartialEq, Eq, Structural)]
pub struct FuelFlowLimits {
    pub empty: u16,
    pub full: u16,
    pub warning: u16,
    pub k_factor: u16,
    pub k_factor2: u16,
}

/// Download timestamp, from the `T` record.
#[derive(Clone, Copy, Default, Debug, PartialEq, Eq, Structural)]
pub struct Timestamp {
    pub month: u16,
    pub day: u16,
    pub year: u16,
    pub hour: u16,
    pub minute: u16,
    pub unknown: u16,
}

/// Hardware configuration, from the `C` record. The 32-bit feature word is
/// `(feature_flags_hi << 16) | feature_flags_lo`.
#[derive(Clone, Copy, Default, Debug, PartialEq, Eq, Structural)]
pub struct ConfigInfo {
    pub model_number: u16,
    pub feature_flags_lo: u16,
    pub feature_flags_hi: u16,
    pub unknown_flags: u16,
    pub firmware_version: u16,
}

/// One per-flight directory entry, from the `D` record. `length` counts
/// 16-bit units, so the flight's binary stream is `length * 2` bytes.
#[derive(Clone, Copy, Default, Debug, PartialEq, Eq, Structural)]
pub struct FlightInfo {
    pub flight_number: u16,
    pub length: u16,
}

/// The preamble terminator, from the `L` record.
#[derive(Clone, Copy, Default, Debug, PartialEq, Eq, Structural)]
pub struct LastHeaderRecord {
    pub unknown: u16,
}

/// One parsed header line, tagged by its record letter.
#[derive(Clone, Debug, PartialEq)]
pub enum HeaderRecord {
    U(String),
    A(ConfiguredLimits),
    F(FuelFlowLimits),
    T(Timestamp),
    C(ConfigInfo),
    D(FlightInfo),
    L(LastHeaderRecord),
}

/// Whether `c` is a space or tab, the padding allowed around numeric fields.
pub open spec fn is_space_char(c: char) -> bool {
    c == ' ' || c == '\t'
}

/// Whether `c` is a decimal digit.
pub open spec fn is_digit_char(c: char) -> bool {
    48 <= c as u32 <= 57
}

/// The numeric value of a decimal digit.
pub open spec fn digit_val(c: char) -> int
    recommends
        is_digit_char(c),
{
    c as u32 - 48
}

/// Whether `c` is a hexadecimal digit of either case.
pub open spec fn is_hex_digit(c: char) -> bool {
    is_digit_char(c) || 65 <= c as u32 <= 70 || 97 <= c as u32 <= 102
}

/// The numeric value of a hexadecimal digit.
pub open spec fn hex_digit_val(c: char) -> int
    recommends
        is_hex_digit(c),
{
    if is_digit_char(c) {
        c as u32 - 48
    } else if 65 <= c as u32 <= 70 {
        c as u32 - 55
    } else {
        c as u32 - 87
    }
}

/// The index of the first character at or after `i` that is not a space or
/// tab, or the length of `s` if spaces reach its end.
pub open spec fn skip_spaces(s: Seq<char>, i: int) -> int
    decreases s.len() - i,
{
    if i < 0 || i >= s.len() {
        i
    } else if is_space_char(s[i]) {
        skip_spaces(s, i + 1)
    } else {
        i
    }
}

/// The index of the first character at or after `i` that is not a decimal
/// digit, or the length of `s` if digits reach its end.
pub open spec fn digits_end(s: Seq<char>, i: int) -> int
    decreases s.len() - i,
{
    if i < 0 || i >= s.len() {
        i
    } else if is_digit_char(s[i]) {
        digits_end(s, i + 1)
    } else {
        i
    }
}

/// The value of the decimal digit run `s[i..j)`.
pub open spec fn dec_val(s: Seq<char>, i: int, j: int) -> int
    decreases j - i,
{
    if j <= i {
        0
    } else {
        dec_val(s, i, j - 1) * 10 + digit_val(s[j - 1])
    }
}

proof fn lemma_skip_spaces_bounds(s: Seq<char>, i: int)
    requires
        0 <= i <= s.len(),
    ensures
        i <= skip_spaces(s, i) <= s.len(),
    decreases s.len() - i,
{
    if i < s.len() && is_space_char(s[i]) {
        lemma_skip_spaces_bounds(s, i + 1);
    }
}

proof fn lemma_digits_end_bounds(s: Seq<char>, i: int)
    requires
        0 <= i <= s.len(),
    ensures
        i <= digits_end(s, i) <= s.len(),
        forall|m: int| i <= m < digits_end(s, i) ==> is_digit_char(s[m]),
    decreases s.len() - i,
{
    if i < s.len() && is_digit_char(s[i]) {
        lemma_digits_end_bounds(s, i + 1);
    }
}

proof fn lemma_dec_val_nonneg(s: Seq<char>, i: int, j: int)
    requires
        forall|m: int| i <= m < j ==> is_digit_char(s[m]),
    ensures
        dec_val(s, i, j) >= 0,
    decreases j - i,
{
    if j > i {
        lemma_dec_val_nonneg(s, i, j - 1);
    }
}

proof fn lemma_dec_val_mono(s: Seq<char>, i: int, j: int, k: int)
    requires
        i <= j <= k,
        forall|m: int| i <= m < k ==> is_digit_char(s[m]),
    ensures
        0 <= dec_val(s, i, j) <= dec_val(s, i, k),
    decreases k - j,
{
    lemma_dec_val_nonneg(s, i, j);
    if j < k {
        lemma_dec_val_mono(s, i, j, k - 1);
        lemma_dec_val_nonneg(s, i, k - 1);
    }
}

/// One numeric payload field starting at `pos`: optional spaces, a decimal
/// run whose value fits 16 bits, optional spaces, then a comma (consumed) or
/// the end of the input. Yields the value and the position after the field.
pub open spec fn short_at(s: Seq<char>, pos: int) -> Option<(u16, int)> {
    let i1 = skip_spaces(s, pos);
    let i2 = digits_end(s, i1);
    if i2 == i1 {
        None
    } else if dec_val(s, i1, i2) > 0xFFFF {
        None
    } else {
        let i3 = skip_spaces(s, i2);
        if i3 < s.len() && s[i3] == ',' {
            Some((dec_val(s, i1, i2) as u16, i3 + 1))
        } else if i3 == s.len() {
            Some((dec_val(s, i1, i2) as u16, i3))
        } else {
            None
        }
    }
}

/// The position after `k` consecutive numeric fields starting at `pos`, or
/// `None` if any of them fails to parse.
pub open spec fn short_pos(s: Seq<char>, pos: int, k: nat) -> Option<int>
    decreases k,
{
    if k == 0 {
        Some(pos)
    } else {
        match short_pos(s, pos, (k - 1) as nat) {
            None => None,
            Some(p) => match short_at(s, p) {
                None => None,
                Some((v, p2)) => Some(p2),
            },
        }
    }
}

/// The value of the `k`-th (0-based) numeric field of a run starting at
/// `pos`, when that run parses at least `k + 1` fields.
pub open spec fn short_val(s: Seq<char>, pos: int, k: nat) -> u16 {
    match short_pos(s, pos, k) {
        None => 0,
        Some(p) => match short_at(s, p) {
            None => 0,
            Some((v, p2)) => v,
        },
    }
}

/// A failed field keeps every longer run failed as well.
proof fn lemma_short_pos_none(s: Seq<char>, pos: int, k: nat, n: nat)
    requires
        k <= n,
        short_pos(s, pos, k) is None,
    ensures
        short_pos(s, pos, n) is None,
    decreases n,
{
    if n > k {
        lemma_short_pos_none(s, pos, k, (n - 1) as nat);
    }
}

/// Parses one numeric field of a record payload, starting at `pos`.
fn parse_short_at(s: &str, pos: usize) -> (r: Result<(u16, usize), ErrorKind>)
    requires
        pos <= s@.len(),
    ensures
        match r {
            Ok((v, p)) => short_at(s@, pos as int) == Some((v, p as int)) && pos <= p <= s@.len(),
            Err(e) => short_at(s@, pos as int) is None && e == ErrorKind::BadNumber,
        },
{
    let n = s.unicode_len();
    let ghost sq = s@;

    // leading spaces
    let mut j: usize = pos;
    loop
        invariant
            pos <= j <= n,
            n == sq.len(),
            sq == s@,
            skip_spaces(sq, pos as int) == skip_spaces(sq, j as int),
        ensures
            pos <= j <= n,
            skip_spaces(sq, pos as int) == j as int,
        decreases n - j,
    {
        if j == n {
            proof {
                assert(skip_spaces(sq, j as int) == j as int);
            }
            break ;
        }
        let c = s.get_char(j);
        if !(c == ' ' || c == '\t') {
            proof {
                assert(skip_spaces(sq, j as int) == j as int);
            }
            break ;
        }
        j = j + 1;
    }
    let i1 = j;

    // digit run, accumulating the value and rejecting 16-bit overflow
    let ghost i2 = digits_end(sq, i1 as int);
    proof {
        lemma_digits_end_bounds(sq, i1 as int);
    }
    let mut acc: u32 = 0;
    let mut k: usize = i1;
    loop
        invariant
            i1 <= k <= n,
            n == sq.len(),
            sq == s@,
            i2 == digits_end(sq, i1 as int),
            digits_end(sq, i1 as int) == digits_end(sq, k as int),
            i1 as int <= i2 <= n as int,
            k as int <= i2,
            forall|m: int| i1 <= m < i2 ==> is_digit_char(sq[m]),
            acc == dec_val(sq, i1 as int, k as int),
            acc <= 0xFFFF,
            pos <= i1,
            skip_spaces(sq, pos as int) == i1 as int,
        ensures
            k as int == i2,
            acc == dec_val(sq, i1 as int, i2),
            acc <= 0xFFFF,
        decreases n - k,
    {
        if k == n {
            proof {
                assert(digits_end(sq, k as int) == k as int);
            }
            break ;
        }
        let c = s.get_char(k);
        let u = c as u32;
        if !(48 <= u && u <= 57) {
            proof {
                assert(digits_end(sq, k as int) == k as int);
            }
            break ;
        }
        proof {
            lemma_digits_end_bounds(sq, k as int + 1);
            assert(digits_end(sq, k as int) == digits_end(sq, k as int + 1));
            assert(dec_val(sq, i1 as int, k as int + 1) == dec_val(sq, i1 as int, k as int) * 10
                + digit_val(sq[k as int]));
        }
        let acc2 = acc * 10 + (u - 48);
        if acc2 > 0xFFFF {
            proof {
                lemma_dec_val_mono(sq, i1 as int, k as int + 1, i2);
                assert(short_at(sq, pos as int) is None);
            }
            return Err(ErrorKind::BadNumber);
        }
        acc = acc2;
        k = k + 1;
    }
    if k == i1 {
        proof {
            assert(short_at(sq, pos as int) is None);
        }
        return Err(ErrorKind::BadNumber);
    }

    // trailing spaces, then a comma or the end of the payload
    let mut j2: usize = k;
    loop
        invariant
            k <= j2 <= n,
            n == sq.len(),
            sq == s@,
            skip_spaces(sq, k as int) == skip_spaces(sq, j2 as int),
        ensures
            k <= j2 <= n,
            skip_spaces(sq, k as int) == j2 as int,
        decreases n - j2,
    {
        if j2 == n {
            proof {
                assert(skip_spaces(sq, j2 as int) == j2 as int);
            }
            break ;
        }
        let c = s.get_char(j2);
        if !(c == ' ' || c == '\t') {
            proof {
                assert(skip_spaces(sq, j2 as int) == j2 as int);
            }
            break ;
        }
        j2 = j2 + 1;
    }
    let i3 = j2;
    if i3 == n {
        return Ok((acc as u16, i3));
    }
    let c = s.get_char(i3);
    if c == ',' {
        Ok((acc as u16, i3 + 1))
    } else {
        Err(ErrorKind::BadNumber)
    }
}

/// Parses the field after the first `k`, keeping the run bookkeeping: on
/// success the run extends to `k + 1` fields; on failure every run of more
/// than `k` fields is failed.
fn parse_next_short(s: &str, pos: usize, Ghost(k): Ghost<nat>) -> (r: Result<
    (u16, usize),
    ErrorKind,
>)
    requires
        pos <= s@.len(),
        short_pos(s@, 0, k) == Some(pos as int),
    ensures
        match r {
            Ok((v, p)) => {
                &&& short_pos(s@, 0, k + 1) == Some(p as int)
                &&& v == short_val(s@, 0, k)
                &&& pos <= p <= s@.len()
            },
            Err(e) => {
                &&& forall|m: nat| m > k ==> short_pos(s@, 0, m) is None
                &&& e == ErrorKind::BadNumber
            },
        },
{
    match parse_short_at(s, pos) {
        Ok((v, p)) => {
            proof {
                assert(short_pos(s@, 0, k + 1) == Some(p as int));
            }
            Ok((v, p))
        },
        Err(e) => {
            proof {
                assert(short_pos(s@, 0, k + 1) is None);
                assert forall|m: nat| m > k implies short_pos(s@, 0, m) is None by {
                    lemma_short_pos_none(s@, 0, (k + 1) as nat, m);
                }
            }
            Err(e)
        },
    }
}

/// The index of the first underscore of `s` at or after `i`, or the length
/// of `s` if there is none.
pub open spec fn underscore_pos(s: Seq<char>, i: int) -> int
    decreases s.len() - i,
{
    if i < 0 || i >= s.len() {
        s.len() as int
    } else if s[i] == '_' {
        i
    } else {
        underscore_pos(s, i + 1)
    }
}

/// Parses a `U` payload: the tail number runs up to the first underscore;
/// trailing underscores are padding and are returned unconsumed. An empty
/// tail number (an empty payload, or one that begins with an underscore)
/// is rejected.
pub fn tail_number_parser<'a>(i: &'a str) -> (r: Result<(&'a str, &'a str), ErrorKind>)
    ensures
        match r {
            Ok((rest, name)) => {
                &&& underscore_pos(i@, 0) > 0
                &&& name@ == i@.subrange(0, underscore_pos(i@, 0))
                &&& rest@ == i@.subrange(underscore_pos(i@, 0), i@.len() as int)
            },
            Err(e) => underscore_pos(i@, 0) == 0 && e == ErrorKind::BadEnvelope,
        },
{
    let ghost sq = i@;
    let n = i.unicode_len();
    let mut j: usize = 0;
    loop
        invariant
            j <= n,
            n == sq.len(),
            sq == i@,
            underscore_pos(sq, 0) == underscore_pos(sq, j as int),
        ensures
            j <= n,
            n == sq.len(),
            underscore_pos(sq, 0) == j as int,
        decreases n - j,
    {
        if j == n {
            proof {
                assert(underscore_pos(sq, j as int) == j as int);
            }
            break ;
        }
        let c = i.get_char(j);
        if c == '_' {
            proof {
                assert(underscore_pos(sq, j as int) == j as int);
            }
            break ;
        }
        j = j + 1;
    }
    if j == 0 {
        return Err(ErrorKind::BadEnvelope);
    }
    let name = i.substring_char(0, j);
    let rest = i.substring_char(j, n);
    Ok((rest, name))
}

/// The `A` record an all-numeric payload denotes.
pub open spec fn spec_configured_limits(p: Seq<char>) -> ConfiguredLimits {
    ConfiguredLimits {
        volts_hi_times_ten: short_val(p, 0, 0),
        volts_lo_times_ten: short_val(p, 0, 1),
        dif: short_val(p, 0, 2),
        cht: short_val(p, 0, 3),
        cld: short_val(p, 0, 4),
        tit: short_val(p, 0, 5),
        oil_hi: short_val(p, 0, 6),
        oil_lo: short_val(p, 0, 7),
    }
}

/// The `F` record an all-numeric payload denotes.
pub open spec fn spec_fuel_flow(p: Seq<char>) -> FuelFlowLimits {
    FuelFlowLimits {
        empty: short_val(p, 0, 0),
        full: short_val(p, 0, 1),
        warning: short_val(p, 0, 2),
        k_factor: short_val(p, 0, 3),
        k_factor2: short_val(p, 0, 4),
    }
}

/// The `T` record an all-numeric payload denotes.
pub open spec fn spec_timestamp(p: Seq<char>) -> Timestamp {
    Timestamp {
        month: short_val(p, 0, 0),
        day: short_val(p, 0, 1),
        year: short_val(p, 0, 2),
        hour: short_val(p, 0, 3),
        minute: short_val(p, 0, 4),
        unknown: short_val(p, 0, 5),
    }
}

/// The `C` record an all-numeric payload denotes.
pub open spec fn spec_config_info(p: Seq<char>) -> ConfigInfo {
    ConfigInfo {
        model_number: short_val(p, 0, 0),
        feature_flags_lo: short_val(p, 0, 1),
        feature_flags_hi: short_val(p, 0, 2),
        unknown_flags: short_val(p, 0, 3),
        firmware_version: short_val(p, 0, 4),
    }
}

/// The `D` record an all-numeric payload denotes.
pub open spec fn spec_flight_info(p: Seq<char>) -> FlightInfo {
    FlightInfo { flight_number: short_val(p, 0, 0), length: short_val(p, 0, 1) }
}

/// The `L` record an all-numeric payload denotes.
pub open spec fn spec_last_header(p: Seq<char>) -> LastHeaderRecord {
    LastHeaderRecord { unknown: short_val(p, 0, 0) }
}

/// Parses an `A` payload: the eight configured alarm limits.
pub fn configured_limits_parser<'a>(i: &'a str) -> (r: Result<
    (&'a str, ConfiguredLimits),
    ErrorKind,
>)
    ensures
        match r {
            Ok((rest, v)) => {
                &&& short_pos(i@, 0, 8) matches Some(end) && rest@ == i@.subrange(
                    end,
                    i@.len() as int,
                )
                &&& v == spec_configured_limits(i@)
            },
            Err(e) => short_pos(i@, 0, 8) is None && e == ErrorKind::BadNumber,
        },
{
    proof {
        assert(short_pos(i@, 0, 0) == Some(0int));
    }
    let (volts_hi_times_ten, p) = match parse_next_short(i, 0, Ghost(0nat)) {
        Ok(x) => x,
        Err(e) => { return Err(e) },
    };
    let (volts_lo_times_ten, p) = match parse_next_short(i, p, Ghost(1nat)) {
        Ok(x) => x,
        Err(e) => { return Err(e) },
    };
    let (dif, p) = match parse_next_short(i, p, Ghost(2nat)) {
        Ok(x) => x,
        Err(e) => { return Err(e) },
    };
    let (cht, p) = match parse_next_short(i, p, Ghost(3nat)) {
        Ok(x) => x,
        Err(e) => { return Err(e) },
    };
    let (cld, p) = match parse_next_short(i, p, Ghost(4nat)) {
        Ok(x) => x,
        Err(e) => { return Err(e) },
    };
    let (tit, p) = match parse_next_short(i, p, Ghost(5nat)) {
        Ok(x) => x,
        Err(e) => { return Err(e) },
    };
    let (oil_hi, p) = match parse_next_short(i, p, Ghost(6nat)) {
        Ok(x) => x,
        Err(e) => { return Err(e) },
    };
    let (oil_lo, p) = match parse_next_short(i, p, Ghost(7nat)) {
        Ok(x) => x,
        Err(e) => { return Err(e) },
    };
    let rest = i.substring_char(p, i.unicode_len());
    Ok((
        rest,
        ConfiguredLimits {
            volts_hi_times_ten,
            volts_lo_times_ten,
            dif,
            cht,
            cld,
            tit,
            oil_hi,
            oil_lo,
        },
    ))
}

/// Parses an `F` payload: the five fuel-flow parameters.
pub fn fuel_flow_parser<'a>(i: &'a str) -> (r: Result<(&'a str, FuelFlowLimits), ErrorKind>)
    ensures
        match r {
            Ok((rest, v)) => {
                &&& short_pos(i@, 0, 5) matches Some(end) && rest@ == i@.subrange(
                    end,
                    i@.len() as int,
                )
                &&& v == spec_fuel_flow(i@)
            },
            Err(e) => short_pos(i@, 0, 5) is None && e == ErrorKind::BadNumber,
        },
{
    proof {
        assert(short_pos(i@, 0, 0) == Some(0int));
    }
    let (empty, p) = match parse_next_short(i, 0, Ghost(0nat)) {
        Ok(x) => x,
        Err(e) => { return Err(e) },
    };
    let (full, p) = match parse_next_short(i, p, Ghost(1nat)) {
        Ok(x) => x,
        Err(e) => { return Err(e) },
    };
    let (warning, p) = match parse_next_short(i, p, Ghost(2nat)) {
        Ok(x) => x,
        Err(e) => { return Err(e) },
    };
    let (k_factor, p) = match parse_next_short(i, p, Ghost(3nat)) {
        Ok(x) => x,
        Err(e) => { return Err(e) },
    };
    let (k_factor2, p) = match parse_next_short(i, p, Ghost(4nat)) {
        Ok(x) => x,
        Err(e) => { return Err(e) },
    };
    let rest = i.substring_char(p, i.unicode_len());
    Ok((rest, FuelFlowLimits { empty, full, warning, k_factor, k_factor2 }))
}

/// Parses a `T` payload: the six timestamp fields.
pub fn timestamp_parser<'a>(i: &'a str) -> (r: Result<(&'a str, Timestamp), ErrorKind>)
    ensures
        match r {
            Ok((rest, v)) => {
                &&& short_pos(i@, 0, 6) matches Some(end) && rest@ == i@.subrange(
                    end,
                    i@.len() as int,
                )
                &&& v == spec_timestamp(i@)
            },
            Err(e) => short_pos(i@, 0, 6) is None && e == ErrorKind::BadNumber,
        },
{
    proof {
        assert(short_pos(i@, 0, 0) == Some(0int));
    }
    let (month, p) = match parse_next_short(i, 0, Ghost(0nat)) {
        Ok(x) => x,
        Err(e) => { return Err(e) },
    };
    let (day, p) = match parse_next_short(i, p, Ghost(1nat)) {
        Ok(x) => x,
        Err(e) => { return Err(e) },
    };
    let (year, p) = match parse_next_short(i, p, Ghost(2nat)) {
        Ok(x) => x,
        Err(e) => { return Err(e) },
    };
    let (hour, p) = match parse_next_short(i, p, Ghost(3nat)) {
        Ok(x) => x,
        Err(e) => { return Err(e) },
    };
    let (minute, p) = match parse_next_short(i, p, Ghost(4nat)) {
        Ok(x) => x,
        Err(e) => { return Err(e) },
    };
    let (unknown, p) = match parse_next_short(i, p, Ghost(5nat)) {
        Ok(x) => x,
        Err(e) => { return Err(e) },
    };
    let rest = i.substring_char(p, i.unicode_len());
    Ok((rest, Timestamp { month, day, year, hour, minute, unknown }))
}

/// Parses a `C` payload: the five hardware-configuration fields.
pub fn config_info_parser<'a>(i: &'a str) -> (r: Result<(&'a str, ConfigInfo), ErrorKind>)
    ensures
        match r {
            Ok((rest, v)) => {
                &&& short_pos(i@, 0, 5) matches Some(end) && rest@ == i@.subrange(
                    end,
                    i@.len() as int,
                )
                &&& v == spec_config_info(i@)
            },
            Err(e) => short_pos(i@, 0, 5) is None && e == ErrorKind::BadNumber,
        },
{
    proof {
        assert(short_pos(i@, 0, 0) == Some(0int));
    }
    let (model_number, p) = match parse_next_short(i, 0, Ghost(0nat)) {
        Ok(x) => x,
        Err(e) => { return Err(e) },
    };
    let (feature_flags_lo, p) = match parse_next_short(i, p, Ghost(1nat)) {
        Ok(x) => x,
        Err(e) => { return Err(e) },
    };
    let (feature_flags_hi, p) = match parse_next_short(i, p, Ghost(2nat)) {
        Ok(x) => x,
        Err(e) => { return Err(e) },
    };
    let (unknown_flags, p) = match parse_next_short(i, p, Ghost(3nat)) {
        Ok(x) => x,
        Err(e) => { return Err(e) },
    };
    let (firmware_version, p) = match parse_next_short(i, p, Ghost(4nat)) {
        Ok(x) => x,
        Err(e) => { return Err(e) },
    };
    let rest = i.substring_char(p, i.unicode_len());
    Ok((
        rest,
        ConfigInfo {
            model_number,
            feature_flags_lo,
            feature_flags_hi,
            unknown_flags,
            firmware_version,
        },
    ))
}

/// Parses a `D` payload: one per-flight directory entry.
pub fn flight_info_parser<'a>(i: &'a str) -> (r: Result<(&'a str, FlightInfo), ErrorKind>)
    ensures
        match r {
            Ok((rest, v)) => {
                &&& short_pos(i@, 0, 2) matches Some(end) && rest@ == i@.subrange(
                    end,
                    i@.len() as int,
                )
                &&& v == spec_flight_info(i@)
            },
            Err(e) => short_pos(i@, 0, 2) is None && e == ErrorKind::BadNumber,
        },
{
    proof {
        assert(short_pos(i@, 0, 0) == Some(0int));
    }
    let (flight_number, p) = match parse_next_short(i, 0, Ghost(0nat)) {
        Ok(x) => x,
        Err(e) => { return Err(e) },
    };
    let (length, p) = match parse_next_short(i, p, Ghost(1nat)) {
        Ok(x) => x,
        Err(e) => { return Err(e) },
    };
    let rest = i.substring_char(p, i.unicode_len());
    Ok((rest, FlightInfo { flight_number, length }))
}

/// Parses an `L` payload: the terminator record's single field.
pub fn last_header_record_parser<'a>(i: &'a str) -> (r: Result<
    (&'a str, LastHeaderRecord),
    ErrorKind,
>)
    ensures
        match r {
            Ok((rest, v)) => {
                &&& short_pos(i@, 0, 1) matches Some(end) && rest@ == i@.subrange(
                    end,
                    i@.len() as int,
                )
                &&& v == spec_last_header(i@)
            },
            Err(e) => short_pos(i@, 0, 1) is None && e == ErrorKind::BadNumber,
        },
{
    proof {
        assert(short_pos(i@, 0, 0) == Some(0int));
    }
    let (unknown, p) = match parse_next_short(i, 0, Ghost(0nat)) {
        Ok(x) => x,
        Err(e) => { return Err(e) },
    };
    let rest = i.substring_char(p, i.unicode_len());
    Ok((rest, LastHeaderRecord { unknown }))
}

/// The index of the first `'*'` of `s` at or after `i`, or `-1` if none.
pub open spec fn first_star(s: Seq<char>, i: int) -> int
    decreases s.len() - i,
{
    if i < 0 || i >= s.len() {
        -1
    } else if s[i] == '*' {
        i
    } else {
        first_star(s, i + 1)
    }
}

/// The byte value of two hexadecimal digit characters.
pub open spec fn hex_byte(h: char, l: char) -> u8
    recommends
        is_hex_digit(h),
        is_hex_digit(l),
{
    (hex_digit_val(h) * 16 + hex_digit_val(l)) as u8
}

/// The characters between `'$'` and `'*'`: the record letter, the comma and
/// the payload. The XOR checksum covers their UTF-8 bytes.
pub open spec fn middle_chars(s: Seq<char>) -> Seq<char> {
    s.subrange(1, first_star(s, 1))
}

/// The payload characters: what stands between `"$T,"` and `'*'`.
pub open spec fn payload_chars(s: Seq<char>) -> Seq<char> {
    s.subrange(3, first_star(s, 1))
}

/// Whether the line has the envelope shape `'$' T ',' payload '*' HH`:
/// a dollar first, a star no earlier than index 3, two hexadecimal digits
/// right after the star, and a comma after the record letter.
pub open spec fn envelope_shape_ok(s: Seq<char>) -> bool {
    let p = first_star(s, 1);
    &&& s.len() >= 1
    &&& s[0] == '$'
    &&& p >= 3
    &&& s.len() >= p + 3
    &&& is_hex_digit(s[p + 1])
    &&& is_hex_digit(s[p + 2])
    &&& s[2] == ','
}

/// The checksum the line itself declares after its star.
pub open spec fn declared_checksum(s: Seq<char>) -> u8 {
    hex_byte(s[first_star(s, 1) + 1], s[first_star(s, 1) + 2])
}

/// Whether the declared checksum equals the XOR of the UTF-8 bytes of the
/// characters between `'$'` and `'*'`.
pub open spec fn envelope_checksum_ok(s: Seq<char>) -> bool {
    xor8(vstd::utf8::encode_utf8(middle_chars(s))) == declared_checksum(s)
}

/// How the envelope of a line fails, if it does: a shape fault is
/// `BadEnvelope`; a shape-correct line with the wrong checksum is
/// `BadChecksum`.
pub open spec fn envelope_error(s: Seq<char>) -> Option<ErrorKind> {
    if !envelope_shape_ok(s) {
        Some(ErrorKind::BadEnvelope)
    } else if !envelope_checksum_ok(s) {
        Some(ErrorKind::BadChecksum)
    } else {
        None
    }
}

fn is_hex_exec(c: char) -> (r: bool)
    ensures
        r == is_hex_digit(c),
{
    let u = c as u32;
    (48 <= u && u <= 57) || (65 <= u && u <= 70) || (97 <= u && u <= 102)
}

fn hex_val_exec(c: char) -> (r: u8)
    requires
        is_hex_digit(c),
    ensures
        r as int == hex_digit_val(c),
{
    let u = c as u32;
    if 48 <= u && u <= 57 {
        (u - 48) as u8
    } else if 65 <= u && u <= 70 {
        (u - 55) as u8
    } else {
        (u - 87) as u8
    }
}

/// Splits one header line into its record letter, payload and remainder,
/// verifying the XOR checksum. The remainder after the two checksum digits
/// is returned unconsumed.
pub fn header_record_parser<'a>(line: &'a str) -> (r: Result<
    (&'a str, (char, &'a str)),
    ErrorKind,
>)
    ensures
        match r {
            Ok((rest, tp)) => {
                &&& envelope_error(line@) is None
                &&& tp.0 == line@[1]
                &&& tp.1@ == payload_chars(line@)
                &&& rest@ == line@.subrange(first_star(line@, 1) + 3, line@.len() as int)
            },
            Err(e) => envelope_error(line@) == Some(e),
        },
{
    let ghost sq = line@;
    let n = line.unicode_len();
    if n == 0 {
        return Err(ErrorKind::BadEnvelope);
    }
    if !(line.get_char(0) == '$') {
        return Err(ErrorKind::BadEnvelope);
    }
    let mut j: usize = 1;
    loop
        invariant
            1 <= j <= n,
            n == sq.len(),
            sq == line@,
            first_star(sq, 1) == first_star(sq, j as int),
        ensures
            1 <= j <= n,
            n == sq.len(),
            if j < n {
                first_star(sq, 1) == j as int
            } else {
                first_star(sq, 1) == -1
            },
        decreases n - j,
    {
        if j == n {
            proof {
                assert(first_star(sq, j as int) == -1);
            }
            break ;
        }
        let c = line.get_char(j);
        if c == '*' {
            proof {
                assert(first_star(sq, j as int) == j as int);
            }
            break ;
        }
        j = j + 1;
    }
    if j == n {
        return Err(ErrorKind::BadEnvelope);
    }
    let p = j;
    if p < 3 {
        return Err(ErrorKind::BadEnvelope);
    }
    if n - p < 3 {
        return Err(ErrorKind::BadEnvelope);
    }
    let h1 = line.get_char(p + 1);
    let h2 = line.get_char(p + 2);
    if !is_hex_exec(h1) {
        return Err(ErrorKind::BadEnvelope);
    }
    if !is_hex_exec(h2) {
        return Err(ErrorKind::BadEnvelope);
    }
    if !(line.get_char(2) == ',') {
        return Err(ErrorKind::BadEnvelope);
    }
    let middle = line.substring_char(1, p);
    let declared = hex_val_exec(h1) * 16 + hex_val_exec(h2);
    let computed = crate::bits::xor8_slice(middle.as_bytes());
    if computed != declared {
        return Err(ErrorKind::BadChecksum);
    }
    let t = line.get_char(1);
    let payload = line.substring_char(3, p);
    let rest = line.substring_char(p + 3, n);
    Ok((rest, (t, payload)))
}

/// Whether `c` is one of the seven known record letters.
pub open spec fn record_type_known(c: char) -> bool {
    c == 'U' || c == 'A' || c == 'F' || c == 'T' || c == 'C' || c == 'D' || c == 'L'
}

/// How many numeric fields the payload of a record with letter `c` carries.
pub open spec fn payload_field_count(c: char) -> nat {
    if c == 'A' {
        8
    } else if c == 'F' {
        5
    } else if c == 'T' {
        6
    } else if c == 'C' {
        5
    } else if c == 'D' {
        2
    } else {
        1
    }
}

/// How the payload of a known record fails to parse, if it does.
pub open spec fn payload_error(t: char, p: Seq<char>) -> Option<ErrorKind> {
    if t == 'U' {
        if underscore_pos(p, 0) == 0 {
            Some(ErrorKind::BadEnvelope)
        } else {
            None
        }
    } else {
        if short_pos(p, 0, payload_field_count(t)) is None {
            Some(ErrorKind::BadNumber)
        } else {
            None
        }
    }
}

/// Where the payload parse of a known record stops, when it succeeds.
pub open spec fn payload_end(t: char, p: Seq<char>) -> int {
    if t == 'U' {
        underscore_pos(p, 0)
    } else {
        short_pos(p, 0, payload_field_count(t))->Some_0
    }
}

/// How a whole header line fails to parse, if it does: envelope shape, then
/// checksum, then trailing input after the checksum digits, then an unknown
/// record letter, then the record's own payload.
pub open spec fn parse_record_error(s: Seq<char>) -> Option<ErrorKind> {
    if envelope_error(s) is Some {
        envelope_error(s)
    } else if s.len() != first_star(s, 1) + 3 {
        Some(ErrorKind::BadEnvelope)
    } else if !record_type_known(s[1]) {
        Some(ErrorKind::UnknownRecord)
    } else {
        payload_error(s[1], payload_chars(s))
    }
}

/// For a line of envelope shape whose input ends right after the two
/// checksum digits and whose payload parses for its record letter, the
/// whole parse succeeds exactly when the XOR checksum over the characters
/// between `'$'` and `'*'` matches the declared checksum and the record
/// letter is one of the seven known ones.
pub proof fn lemma_envelope_roundtrip(s: Seq<char>)
    requires
        envelope_shape_ok(s),
        s.len() == first_star(s, 1) + 3,
        record_type_known(s[1]) ==> payload_error(s[1], payload_chars(s)) is None,
    ensures
        parse_record_error(s) is None <==> (envelope_checksum_ok(s) && record_type_known(s[1])),
{
}

/// Parses one whole header line: envelope, checksum, nothing after the
/// checksum digits, and the typed payload. On success the line's record is
/// returned along with the payload's own remainder (the underscore padding
/// of a `U` record, or any characters its numeric run left unconsumed).
pub fn parse_record<'a>(i: &'a str) -> (r: Result<(&'a str, HeaderRecord), ErrorKind>)
    ensures
        match r {
            Ok((rest, rec)) => {
                let t = i@[1];
                let p = payload_chars(i@);
                &&& parse_record_error(i@) is None
                &&& rest@ == p.subrange(payload_end(t, p), p.len() as int)
                &&& (t == 'U' ==> (rec matches HeaderRecord::U(name) && name@ == p.subrange(
                    0,
                    underscore_pos(p, 0),
                )))
                &&& (t == 'A' ==> rec == HeaderRecord::A(spec_configured_limits(p)))
                &&& (t == 'F' ==> rec == HeaderRecord::F(spec_fuel_flow(p)))
                &&& (t == 'T' ==> rec == HeaderRecord::T(spec_timestamp(p)))
                &&& (t == 'C' ==> rec == HeaderRecord::C(spec_config_info(p)))
                &&& (t == 'D' ==> rec == HeaderRecord::D(spec_flight_info(p)))
                &&& (t == 'L' ==> rec == HeaderRecord::L(spec_last_header(p)))
            },
            Err(e) => parse_record_error(i@) == Some(e),
        },
{
    let (rest0, (t, payload)) = match header_record_parser(i) {
        Ok(x) => x,
        Err(e) => { return Err(e) },
    };
    if rest0.unicode_len() != 0 {
        return Err(ErrorKind::BadEnvelope);
    }
    match t {
        'U' => match tail_number_parser(payload) {
            Ok((rest, name)) => Ok((rest, HeaderRecord::U(name.to_owned()))),
            Err(e) => Err(e),
        },
        'A' => match configured_limits_parser(payload) {
            Ok((rest, v)) => Ok((rest, HeaderRecord::A(v))),
            Err(e) => Err(e),
        },
        'F' => match fuel_flow_parser(payload) {
            Ok((rest, v)) => Ok((rest, HeaderRecord::F(v))),
            Err(e) => Err(e),
        },
        'T' => match timestamp_parser(payload) {
            Ok((rest, v)) => Ok((rest, HeaderRecord::T(v))),
            Err(e) => Err(e),
        },
        'C' => match config_info_parser(payload) {
            Ok((rest, v)) => Ok((rest, HeaderRecord::C(v))),
            Err(e) => Err(e),
        },
        'D' => match flight_info_parser(payload) {
            Ok((rest, v)) => Ok((rest, HeaderRecord::D(v))),
            Err(e) => Err(e),
        },
        'L' => match last_header_record_parser(payload) {
            Ok((rest, v)) => Ok((rest, HeaderRecord::L(v))),
            Err(e) => Err(e),
        },
        _ => Err(ErrorKind::UnknownRecord),
    }
}

} // verus!
