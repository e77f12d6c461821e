//! Decoder for the binary flight streams: the fixed flight header and the
//! variable-length, bit-mask driven, delta-encoded sample frames.
//!
//! A sample is a vector of 48 signed 16-bit fields, grouped eight to a flag
//! byte. A frame names, through three layers of bit masks, which fields move
//! and by how much, relative to the previous sample; a one-byte additive
//! checksum closes every non-repeat frame.

use crate::bits::bit_in;
use crate::bits::bit_of;
use crate::bits::count_bits;
use crate::bits::lemma_count_bits_bound;
use crate::bits::lemma_count_bits_mono;
use crate::bits::sum8_neg;
use crate::bits::be_u16_uwu;
use crate::bits::calc_checksum;
use crate::bits::test_bit;
use crate::headers::ConfigInfo;
use crate::ErrorKind;
use vstd::prelude::*;

verus! {

/// Offset between the engine-0 and engine-1 EGT banks in the flat sample
/// vector: engine 0 spans group 0, engine 1 spans group 3.
pub const TWINJUMP: u32 = 24;

/// The fixed binary header that opens each flight stream. Its 32-bit flag
/// word is stored as two big-endian 16-bit halves, low half first, and must
/// equal the feature word of the preamble's `C` record.
#[allow(non_camel_case_types)]
#[derive(Clone, Copy, Default, Debug, PartialEq, Eq, Structural)]
pub struct flightheader {
    pub flightnumber: u16,
    pub flags: u32,
    pub unknown: u16,
    pub interval_secs: u16,
    pub datebits: u16,
    pub timebits: u16,
}

/// The 48 sample fields as one flat vector, addressed `group * 8 + bit`.
///
/// Group 0 holds `egt[0..6], t1, t2`; group 1 `cht[0..6], cld, oil`;
/// group 2 `mark, unk_3_1, cdt, iat, bat, oat, usd, ff`; group 3
/// `regt[0..6], hp_or_rt1, rt2`; group 4 `rcht[0..6], rcld, roil`; group 5
/// `map, rpm, rpm_hi_or_rcdt, riat, unk_6_4, unk_6_5, rusd, rff`.
#[allow(non_camel_case_types)]
#[derive(Clone, Copy, Debug, PartialEq)]
pub struct data_record {
    pub fields: [i16; 48],
}

/// Flat index of the `hp_or_rt1` union field (group 3, bit 6).
pub const IDX_HP_RT1: usize = 30;

/// Flat index of the `rpm` field (group 5, bit 1).
pub const IDX_RPM: usize = 41;

/// Flat index of the `rpm_hi_or_rcdt` union field (group 5, bit 2).
pub const IDX_RPM_HIGHBYTE_RCDT: usize = 42;

impl View for data_record {
    type V = Seq<i16>;

    open spec fn view(&self) -> Seq<i16> {
        self.fields@
    }
}

impl data_record {
    /// Reads one field of the flat vector.
    pub fn get(&self, idx: usize) -> (r: i16)
        requires
            idx < 48,
        ensures
            r == self@[idx as int],
    {
        self.fields[idx]
    }

    /// EGT of engine-0 cylinder `i` (group 0, bits 0..6).
    pub fn egt(&self, i: usize) -> (r: i16)
        requires
            i < 6,
        ensures
            r == self@[i as int],
    {
        self.fields[i]
    }

    /// First auxiliary temperature (group 0, bit 6).
    pub fn t1(&self) -> (r: i16)
        ensures
            r == self@[6],
    {
        self.fields[6]
    }

    /// Second auxiliary temperature (group 0, bit 7).
    pub fn t2(&self) -> (r: i16)
        ensures
            r == self@[7],
    {
        self.fields[7]
    }

    /// CHT of engine-0 cylinder `i` (group 1, bits 0..6).
    pub fn cht(&self, i: usize) -> (r: i16)
        requires
            i < 6,
        ensures
            r == self@[8 + i as int],
    {
        self.fields[8 + i]
    }

    /// Engine-0 cooling rate (group 1, bit 6).
    pub fn cld(&self) -> (r: i16)
        ensures
            r == self@[14],
    {
        self.fields[14]
    }

    /// Engine-0 oil temperature (group 1, bit 7).
    pub fn oil(&self) -> (r: i16)
        ensures
            r == self@[15],
    {
        self.fields[15]
    }

    /// Pilot mark (group 2, bit 0).
    pub fn mark(&self) -> (r: i16)
        ensures
            r == self@[16],
    {
        self.fields[16]
    }

    /// Unnamed field of group 2, bit 1.
    pub fn unk_3_1(&self) -> (r: i16)
        ensures
            r == self@[17],
    {
        self.fields[17]
    }

    /// Engine-0 compressor discharge temperature (group 2, bit 2).
    pub fn cdt(&self) -> (r: i16)
        ensures
            r == self@[18],
    {
        self.fields[18]
    }

    /// Engine-0 induction air temperature (group 2, bit 3).
    pub fn iat(&self) -> (r: i16)
        ensures
            r == self@[19],
    {
        self.fields[19]
    }

    /// Battery voltage (group 2, bit 4).
    pub fn bat(&self) -> (r: i16)
        ensures
            r == self@[20],
    {
        self.fields[20]
    }

    /// Outside air temperature (group 2, bit 5).
    pub fn oat(&self) -> (r: i16)
        ensures
            r == self@[21],
    {
        self.fields[21]
    }

    /// Engine-0 fuel used (group 2, bit 6).
    pub fn usd(&self) -> (r: i16)
        ensures
            r == self@[22],
    {
        self.fields[22]
    }

    /// Engine-0 fuel flow (group 2, bit 7).
    pub fn ff(&self) -> (r: i16)
        ensures
            r == self@[23],
    {
        self.fields[23]
    }

    /// EGT of engine-1 cylinder `i` (group 3, bits 0..6).
    pub fn regt(&self, i: usize) -> (r: i16)
        requires
            i < 6,
        ensures
            r == self@[24 + i as int],
    {
        self.fields[24 + i]
    }

    /// The horsepower / engine-1 T1 union field (group 3, bit 6).
    pub fn hp_rt1(&self) -> (r: i16)
        ensures
            r == self@[IDX_HP_RT1 as int],
    {
        self.fields[IDX_HP_RT1]
    }

    /// Engine-1 second auxiliary temperature (group 3, bit 7).
    pub fn rt2(&self) -> (r: i16)
        ensures
            r == self@[31],
    {
        self.fields[31]
    }

    /// CHT of engine-1 cylinder `i` (group 4, bits 0..6).
    pub fn rcht(&self, i: usize) -> (r: i16)
        requires
            i < 6,
        ensures
            r == self@[32 + i as int],
    {
        self.fields[32 + i]
    }

    /// Engine-1 cooling rate (group 4, bit 6).
    pub fn rcld(&self) -> (r: i16)
        ensures
            r == self@[38],
    {
        self.fields[38]
    }

    /// Engine-1 oil temperature (group 4, bit 7).
    pub fn roil(&self) -> (r: i16)
        ensures
            r == self@[39],
    {
        self.fields[39]
    }

    /// Manifold pressure (group 5, bit 0).
    pub fn map(&self) -> (r: i16)
        ensures
            r == self@[40],
    {
        self.fields[40]
    }

    /// Engine speed (group 5, bit 1).
    pub fn rpm(&self) -> (r: i16)
        ensures
            r == self@[IDX_RPM as int],
    {
        self.fields[IDX_RPM]
    }

    /// The RPM high byte / engine-1 CDT union field (group 5, bit 2).
    pub fn rpm_highbyte_rcdt(&self) -> (r: i16)
        ensures
            r == self@[IDX_RPM_HIGHBYTE_RCDT as int],
    {
        self.fields[IDX_RPM_HIGHBYTE_RCDT]
    }

    /// Engine-1 induction air temperature (group 5, bit 3).
    pub fn riat(&self) -> (r: i16)
        ensures
            r == self@[43],
    {
        self.fields[43]
    }

    /// Unnamed field of group 5, bit 4.
    pub fn unk_6_4(&self) -> (r: i16)
        ensures
            r == self@[44],
    {
        self.fields[44]
    }

    /// Unnamed field of group 5, bit 5.
    pub fn unk_6_5(&self) -> (r: i16)
        ensures
            r == self@[45],
    {
        self.fields[45]
    }

    /// Engine-1 fuel used (group 5, bit 6).
    pub fn rusd(&self) -> (r: i16)
        ensures
            r == self@[46],
    {
        self.fields[46]
    }

    /// Engine-1 fuel flow (group 5, bit 7).
    pub fn rff(&self) -> (r: i16)
        ensures
            r == self@[47],
    {
        self.fields[47]
    }
}

/// The running decoder state: the sample fields, the per-engine EGT span
/// computed after each frame, and one not-available bit per field.
#[allow(non_camel_case_types)]
#[derive(Clone, Copy, Debug, PartialEq)]
pub struct binary_record {
    pub data: data_record,
    pub dif: [i16; 2],
    pub naflags: [u8; 6],
}

/// The per-field not-available bits of a flag byte array, as one flat
/// sequence of 48 booleans.
pub open spec fn na_bits(naflags: Seq<u8>) -> Seq<bool> {
    Seq::new(48, |i: int| bit_in(naflags, i))
}

/// How many engines the configuration describes. The monitor family encodes
/// this in the hardware configuration record; the twin-engine model of the
/// family reports model number 760.
pub open spec fn spec_num_engines(config: ConfigInfo) -> u32 {
    if config.model_number == 760 {
        2
    } else {
        1
    }
}

/// Executable form of [`spec_num_engines`].
pub fn num_engines(config: &ConfigInfo) -> (r: u32)
    ensures
        r == spec_num_engines(*config),
        1 <= r <= 2,
{
    if config.model_number == 760 {
        2
    } else {
        1
    }
}

/// How many cylinders per engine the flight header's flag word describes:
/// the number of EGT sensors named by its low six bits, at least one.
pub open spec fn spec_num_cyls(flags: u32) -> u32 {
    let c = count_bits((flags & 0x3F) as u8, 0, 6);
    if c == 0 {
        1
    } else {
        c as u32
    }
}

/// Executable form of [`spec_num_cyls`].
pub fn num_cyls(flags: u32) -> (r: u32)
    ensures
        r == spec_num_cyls(flags),
        1 <= r <= 6,
{
    proof {
        assert(flags & 0x3F < 64) by (bit_vector);
    }
    let low = (flags & 0x3F) as u8;
    let c = popcount_range(low, 0, 6);
    proof {
        lemma_count_bits_bound(low, 0, 6);
    }
    if c == 0 {
        1
    } else {
        c
    }
}

/// Whether bit 26 of the composed feature word is set: the RPM-present flag.
pub open spec fn spec_has_rpm(h: flightheader) -> bool {
    h.flags & 0x0400_0000 == 0x0400_0000
}

/// Executable form of [`spec_has_rpm`].
pub fn has_rpm(header: &flightheader) -> (r: bool)
    ensures
        r == spec_has_rpm(*header),
{
    header.flags & 0x0400_0000 == 0x0400_0000
}

/// The 32-bit feature word of the hardware configuration record:
/// `(feature_flags_hi << 16) | feature_flags_lo`.
pub open spec fn composed_flags(c: ConfigInfo) -> u32 {
    (c.feature_flags_hi * 0x10000 + c.feature_flags_lo) as u32
}

/// Composes the feature word of a configuration record.
pub fn compose_flags(c: &ConfigInfo) -> (r: u32)
    ensures
        r == composed_flags(*c),
{
    (c.feature_flags_hi as u32) * 0x10000 + (c.feature_flags_lo as u32)
}

/// Counts the set bits of `x` in the position range `[lo, hi)`.
fn popcount_range(x: u8, lo: u32, hi: u32) -> (r: u32)
    requires
        lo <= hi <= 8,
    ensures
        r == count_bits(x, lo as int, hi as int),
        r <= hi - lo,
{
    let mut r: u32 = 0;
    let mut k: u32 = lo;
    while k < hi
        invariant
            lo <= k <= hi <= 8,
            r == count_bits(x, lo as int, k as int),
            r <= k - lo,
        decreases hi - k,
    {
        if test_bit(x, k) {
            r = r + 1;
        }
        proof {
            assert(count_bits(x, lo as int, k as int + 1) == count_bits(x, lo as int, k as int)
                + if bit_of(x, k) {
                1int
            } else {
                0int
            });
        }
        k = k + 1;
    }
    r
}

/// The 16-bit two's-complement value congruent to `n` modulo 2^16: the
/// wrap-around arithmetic every field update uses.
pub open spec fn wrap16(n: int) -> i16 {
    let m = n % 0x10000;
    if m >= 0x8000 {
        (m - 0x10000) as i16
    } else {
        m as i16
    }
}

/// Wrapping leaves a value already in 16-bit range unchanged.
pub proof fn lemma_wrap16_small(n: int)
    requires
        -0x8000 <= n < 0x8000,
    ensures
        wrap16(n) == n,
{
    if n >= 0 {
        vstd::arithmetic::div_mod::lemma_small_mod(n as nat, 0x10000);
    } else {
        vstd::arithmetic::div_mod::lemma_mod_multiples_vanish(1, n, 0x10000);
        vstd::arithmetic::div_mod::lemma_small_mod((n + 0x10000) as nat, 0x10000);
    }
}

/// Wrapping is invariant under shifts by whole multiples of 2^16.
pub proof fn lemma_wrap16_shift(n: int)
    ensures
        wrap16(n + 0x10000) == wrap16(n),
        wrap16(n - 0x10000) == wrap16(n),
{
    vstd::arithmetic::div_mod::lemma_mod_multiples_vanish(1, n, 0x10000);
    vstd::arithmetic::div_mod::lemma_mod_multiples_vanish(-1, n, 0x10000);
}

/// Reduces a 32-bit intermediate into the 16-bit wrap-around result.
fn wrap16_exec(s: i32) -> (r: i16)
    ensures
        r == wrap16(s as int),
{
    let ghost s0 = s as int;
    let mut v = s;
    while v > 32767
        invariant
            wrap16(v as int) == wrap16(s0),
            v >= i32::MIN,
        decreases v + 65536,
    {
        proof {
            lemma_wrap16_shift(v as int - 0x10000);
        }
        v = v - 65536;
    }
    while v < -32768
        invariant
            wrap16(v as int) == wrap16(s0),
            v <= 32767,
        decreases 65536 - v,
    {
        proof {
            lemma_wrap16_shift(v as int);
        }
        v = v + 65536;
    }
    proof {
        lemma_wrap16_small(v as int);
    }
    v as i16
}

impl binary_record {
    /// A sample state for the start of a flight: every field holds `0x00F0`,
    /// except that a single-engine configuration zeroes the two union fields
    /// `hp_or_rt1` and `rpm_hi_or_rcdt`; no field is marked not-available
    /// and both EGT spans are zero.
    pub fn new(config: &ConfigInfo) -> (r: binary_record)
        ensures
            forall|i: int|
                0 <= i < 48 ==> r.data@[i] == (if spec_num_engines(*config) == 1 && (i
                    == IDX_HP_RT1 as int || i == IDX_RPM_HIGHBYTE_RCDT as int) {
                    0i16
                } else {
                    0xF0i16
                }),
            forall|i: int| 0 <= i < 48 ==> !bit_in(r.naflags@, i),
            r.naflags@ =~= seq![0u8, 0u8, 0u8, 0u8, 0u8, 0u8],
            r.dif@ =~= seq![0i16, 0i16],
    {
        let mut fields = [0xF0i16; 48];
        if num_engines(config) == 1 {
            fields[IDX_HP_RT1] = 0;
            fields[IDX_RPM_HIGHBYTE_RCDT] = 0;
        }
        let r = binary_record {
            data: data_record { fields },
            dif: [0i16; 2],
            naflags: [0u8; 6],
        };
        proof {
            assert forall|i: int| 0 <= i < 48 implies !bit_in(r.naflags@, i) by {
                assert(0 <= i / 8 < 6);
                assert(r.naflags@[i / 8] == 0u8);
                let k = (i % 8) as u32;
                assert(!bit_of(0u8, k)) by (bit_vector);
            }
        }
        r
    }
}

/// The big-endian 16-bit value at offset `i` of a byte sequence.
pub open spec fn be16(b: Seq<u8>, i: int) -> u16 {
    (b[i] * 256 + b[i + 1]) as u16
}

/// The flight header a 15-byte buffer denotes: six big-endian 16-bit fields
/// after the flight number, with the flag word composed from its low half
/// (bytes 2..4) and high half (bytes 4..6).
pub open spec fn spec_flight_header(b: Seq<u8>) -> flightheader {
    flightheader {
        flightnumber: be16(b, 0),
        flags: (be16(b, 4) * 0x10000 + be16(b, 2)) as u32,
        unknown: be16(b, 6),
        interval_secs: be16(b, 8),
        datebits: be16(b, 10),
        timebits: be16(b, 12),
    }
}

/// How a flight-header read fails, if it does: fourteen payload bytes and
/// one checksum byte must be present, and the checksum byte must be the
/// additive checksum of the payload.
pub open spec fn flight_header_error(b: Seq<u8>) -> Option<ErrorKind> {
    if b.len() < 15 {
        Some(ErrorKind::ShortRead)
    } else if b[14] != sum8_neg(b.take(14)) {
        Some(ErrorKind::BadChecksum)
    } else {
        None
    }
}

/// Decodes the fixed flight header from the first fifteen bytes of `buf`,
/// checking its additive checksum.
pub fn read_flight_header(buf: &[u8]) -> (r: Result<flightheader, ErrorKind>)
    ensures
        match r {
            Ok(h) => flight_header_error(buf@) is None && h == spec_flight_header(buf@),
            Err(e) => flight_header_error(buf@) == Some(e),
        },
{
    if buf.len() < 15 {
        return Err(ErrorKind::ShortRead);
    }
    let checksum = buf[14];
    let computed = calc_checksum(&buf[0..14]);
    proof {
        assert(buf@.subrange(0, 14) =~= buf@.take(14));
    }
    if checksum != computed {
        return Err(ErrorKind::BadChecksum);
    }
    let flightnumber = be_u16_uwu(&buf[0..2]);
    let flags_lo = be_u16_uwu(&buf[2..4]);
    let flags_hi = be_u16_uwu(&buf[4..6]);
    let unknown = be_u16_uwu(&buf[6..8]);
    let interval_secs = be_u16_uwu(&buf[8..10]);
    let datebits = be_u16_uwu(&buf[10..12]);
    let timebits = be_u16_uwu(&buf[12..14]);
    Ok(
        flightheader {
            flightnumber,
            flags: (flags_hi as u32) * 0x10000 + (flags_lo as u32),
            unknown,
            interval_secs,
            datebits,
            timebits,
        },
    )
}

// ---------------------------------------------------------------------------
// Frame layout. A frame is `decode[0] decode[1] repeat`, then one flag byte
// for each set bit of `decode[0]`: bits 0..6 select field-flag groups, bits
// 6..8 scale-flag groups, and bits 0..6 again sign-flag groups; then one
// delta byte per set field-flag bit, one per set scale-flag bit, and the
// checksum byte. A cleared `decode[0]` bit leaves its flag byte implicitly
// zero at its logical position; the stream keeps ascending logical order.
// ---------------------------------------------------------------------------
/// Number of field-flag (and sign-flag) bytes present in the stream.
pub open spec fn nf_of(b: Seq<u8>) -> int {
    count_bits(b[0], 0, 6)
}

/// Number of scale-flag bytes present in the stream.
pub open spec fn ns_of(b: Seq<u8>) -> int {
    count_bits(b[0], 6, 8)
}

/// The field-flag byte of group `k`, zero when absent from the stream.
pub open spec fn field_flag(b: Seq<u8>, k: int) -> u8
    recommends
        0 <= k < 6,
{
    if bit_of(b[0], k as u32) {
        b[3 + count_bits(b[0], 0, k)]
    } else {
        0u8
    }
}

/// The scale-flag byte of group `k`, zero when absent from the stream.
pub open spec fn scale_flag(b: Seq<u8>, k: int) -> u8
    recommends
        0 <= k < 2,
{
    if bit_of(b[0], (6 + k) as u32) {
        b[3 + nf_of(b) + count_bits(b[0], 6, 6 + k)]
    } else {
        0u8
    }
}

/// The sign-flag byte of group `k`, zero when absent from the stream.
pub open spec fn sign_flag(b: Seq<u8>, k: int) -> u8
    recommends
        0 <= k < 6,
{
    if bit_of(b[0], k as u32) {
        b[3 + nf_of(b) + ns_of(b) + count_bits(b[0], 0, k)]
    } else {
        0u8
    }
}

/// Whether the frame carries a field delta for flat index `idx`.
pub open spec fn fp(b: Seq<u8>, idx: int) -> bool
    recommends
        0 <= idx < 48,
{
    bit_of(field_flag(b, idx / 8), (idx % 8) as u32)
}

/// Whether the frame marks the delta of flat index `idx` as negative.
pub open spec fn sgn(b: Seq<u8>, idx: int) -> bool
    recommends
        0 <= idx < 48,
{
    bit_of(sign_flag(b, idx / 8), (idx % 8) as u32)
}

/// How many field deltas precede flat index `idx` in the stream.
pub open spec fn frank(b: Seq<u8>, idx: int) -> int
    decreases idx,
{
    if idx <= 0 {
        0
    } else {
        frank(b, idx - 1) + if fp(b, idx - 1) {
            1int
        } else {
            0int
        }
    }
}

/// How many field-delta bytes the frame carries.
pub open spec fn field_count(b: Seq<u8>) -> int {
    frank(b, 48)
}

/// Whether the frame carries a scale delta for scale slot `s` (slots 0..8
/// belong to scale group 0, slots 8..16 to scale group 1).
pub open spec fn sp(b: Seq<u8>, s: int) -> bool
    recommends
        0 <= s < 16,
{
    bit_of(scale_flag(b, s / 8), (s % 8) as u32)
}

/// How many scale deltas precede slot `s` in the stream.
pub open spec fn srank(b: Seq<u8>, s: int) -> int
    decreases s,
{
    if s <= 0 {
        0
    } else {
        srank(b, s - 1) + if sp(b, s - 1) {
            1int
        } else {
            0int
        }
    }
}

/// How many scale-delta bytes the frame carries.
pub open spec fn scale_count(b: Seq<u8>) -> int {
    srank(b, 16)
}

/// Offset of the first field-delta byte.
pub open spec fn field_dif_off(b: Seq<u8>) -> int {
    3 + nf_of(b) + ns_of(b) + nf_of(b)
}

/// Offset of the first scale-delta byte.
pub open spec fn scale_dif_off(b: Seq<u8>) -> int {
    field_dif_off(b) + field_count(b)
}

/// The whole frame's size: header, flag bytes, delta bytes and checksum.
pub open spec fn frame_total(b: Seq<u8>) -> int {
    scale_dif_off(b) + scale_count(b) + 1
}

/// The field-delta byte of flat index `idx`, when the frame carries one.
pub open spec fn fdif(b: Seq<u8>, idx: int) -> u8
    recommends
        fp(b, idx),
{
    b[field_dif_off(b) + frank(b, idx)]
}

/// The scale-delta byte of slot `s`, when the frame carries one.
pub open spec fn sdif(b: Seq<u8>, s: int) -> u8
    recommends
        sp(b, s),
{
    b[scale_dif_off(b) + srank(b, s)]
}

proof fn lemma_frank_mono(b: Seq<u8>, i: int, j: int)
    requires
        0 <= i <= j,
    ensures
        0 <= frank(b, i) <= frank(b, j),
        frank(b, j) - frank(b, i) <= j - i,
    decreases j - i,
{
    if i < j {
        lemma_frank_mono(b, i, j - 1);
    } else {
        lemma_frank_nonneg(b, i);
    }
}

proof fn lemma_frank_nonneg(b: Seq<u8>, i: int)
    requires
        0 <= i,
    ensures
        0 <= frank(b, i) <= i,
    decreases i,
{
    if i > 0 {
        lemma_frank_nonneg(b, i - 1);
    }
}

proof fn lemma_srank_mono(b: Seq<u8>, i: int, j: int)
    requires
        0 <= i <= j,
    ensures
        0 <= srank(b, i) <= srank(b, j),
        srank(b, j) - srank(b, i) <= j - i,
    decreases j - i,
{
    if i < j {
        lemma_srank_mono(b, i, j - 1);
    } else {
        lemma_srank_nonneg(b, i);
    }
}

proof fn lemma_srank_nonneg(b: Seq<u8>, i: int)
    requires
        0 <= i,
    ensures
        0 <= srank(b, i) <= i,
    decreases i,
{
    if i > 0 {
        lemma_srank_nonneg(b, i - 1);
    }
}

// ---------------------------------------------------------------------------
// What one non-repeat frame does to the state, field by field: a byte-sized
// field delta (added or subtracted by sign flag), then a word-sized scale
// delta on the two EGT banks, then the single-engine RPM sign quirk. A
// field's not-available bit follows its deltas: a zero field delta sets it,
// a non-zero field delta or a non-zero scale delta clears it.
// ---------------------------------------------------------------------------
/// A field's value after the frame's field deltas.
pub open spec fn val_after_fields(prev: i16, b: Seq<u8>, idx: int) -> i16 {
    if fp(b, idx) {
        if sgn(b, idx) {
            wrap16(prev - fdif(b, idx))
        } else {
            wrap16(prev + fdif(b, idx))
        }
    } else {
        prev
    }
}

/// A field's not-available bit after the frame's field deltas.
pub open spec fn na_after_fields(prev_na: bool, b: Seq<u8>, idx: int) -> bool {
    if fp(b, idx) {
        fdif(b, idx) == 0
    } else {
        prev_na
    }
}

/// The scale slot that targets flat index `idx`, or `-1`: bit `k` of scale
/// group `g` (flat slot `g * 8 + k`) targets field index `g * TWINJUMP + k`,
/// so slots 0..8 target the engine-0 EGT bank and slots 8..16 the engine-1
/// bank.
pub open spec fn scale_slot_of(idx: int) -> int {
    if 0 <= idx < 8 {
        idx
    } else if 24 <= idx < 32 {
        idx - 16
    } else {
        -1
    }
}

/// Whether a non-zero scale delta of this frame reaches flat index `idx`.
pub open spec fn scale_applies(b: Seq<u8>, idx: int) -> bool {
    scale_slot_of(idx) >= 0 && sp(b, scale_slot_of(idx)) && sdif(b, scale_slot_of(idx)) != 0
}

/// A field's value after the frame's scale deltas. A zero scale-delta byte
/// is consumed but changes nothing.
pub open spec fn val_after_scale(prev: i16, b: Seq<u8>, idx: int) -> i16 {
    let v1 = val_after_fields(prev, b, idx);
    if scale_applies(b, idx) {
        if sgn(b, idx) {
            wrap16(v1 - sdif(b, scale_slot_of(idx)) * 256)
        } else {
            wrap16(v1 + sdif(b, scale_slot_of(idx)) * 256)
        }
    } else {
        v1
    }
}

/// A field's not-available bit after the frame's scale deltas.
pub open spec fn na_after_scale(prev_na: bool, b: Seq<u8>, idx: int) -> bool {
    if scale_applies(b, idx) {
        false
    } else {
        na_after_fields(prev_na, b, idx)
    }
}

/// Whether the single-engine RPM quirk fires: one engine, and the RPM field
/// delta marked negative. The high byte is then negated in place.
pub open spec fn rpm_quirk(b: Seq<u8>, engines: u32) -> bool {
    engines == 1 && sgn(b, IDX_RPM as int)
}

/// A field's value once the whole frame (deltas and quirk) is applied,
/// before the post-sample calculation.
pub open spec fn decoded_val(prev: binary_record, b: Seq<u8>, engines: u32, idx: int) -> i16 {
    if idx == IDX_RPM_HIGHBYTE_RCDT as int && rpm_quirk(b, engines) {
        wrap16(-val_after_scale(prev.data@[idx], b, idx))
    } else {
        val_after_scale(prev.data@[idx], b, idx)
    }
}

/// A field's not-available bit once the whole frame is applied: the quirk
/// clears the RPM bit when the negated high byte is non-zero.
pub open spec fn decoded_na(prev: binary_record, b: Seq<u8>, engines: u32, idx: int) -> bool {
    if idx == IDX_RPM as int && rpm_quirk(b, engines) && decoded_val(
        prev,
        b,
        engines,
        IDX_RPM_HIGHBYTE_RCDT as int,
    ) != 0 {
        false
    } else {
        na_after_scale(bit_in(prev.naflags@, idx), b, idx)
    }
}

/// The whole decoded sample vector, before the post-sample calculation.
pub open spec fn decoded_data(prev: binary_record, b: Seq<u8>, engines: u32) -> Seq<i16> {
    Seq::new(48, |i: int| decoded_val(prev, b, engines, i))
}

/// The whole decoded not-available vector.
pub open spec fn decoded_nas(prev: binary_record, b: Seq<u8>, engines: u32) -> Seq<bool> {
    Seq::new(48, |i: int| decoded_na(prev, b, engines, i))
}

// ---------------------------------------------------------------------------
// Post-sample calculation: the per-engine EGT span over the valid cylinders,
// and the RPM high-byte merge when the RPM feature flag is set.
// ---------------------------------------------------------------------------
/// The flat index of cylinder `i` of engine `e`: cylinders 6 and above of a
/// single-engine monitor wrap into the engine-1 EGT bank.
pub open spec fn egt_index(e: int, i: int) -> int {
    if i < 6 {
        i + e * (TWINJUMP as int)
    } else {
        i - 6 + (TWINJUMP as int)
    }
}

/// The largest valid EGT value among the first `n` cylinders of engine `e`,
/// starting from `-1`.
pub open spec fn emax_upto(st: Seq<i16>, na: Seq<bool>, e: int, n: int) -> int
    decreases n,
{
    if n <= 0 {
        -1
    } else {
        let p = emax_upto(st, na, e, n - 1);
        let idx = egt_index(e, n - 1);
        if !na[idx] && st[idx] > p {
            st[idx] as int
        } else {
            p
        }
    }
}

/// The smallest valid EGT value among the first `n` cylinders of engine `e`,
/// starting from `0x7FFF`.
pub open spec fn emin_upto(st: Seq<i16>, na: Seq<bool>, e: int, n: int) -> int
    decreases n,
{
    if n <= 0 {
        0x7FFF
    } else {
        let p = emin_upto(st, na, e, n - 1);
        let idx = egt_index(e, n - 1);
        if !na[idx] && st[idx] < p {
            st[idx] as int
        } else {
            p
        }
    }
}

/// The EGT span of engine `e` over `cyls` cylinders: max minus min of the
/// valid cylinders, in wrapping 16-bit arithmetic.
pub open spec fn spec_dif(st: Seq<i16>, na: Seq<bool>, e: int, cyls: int) -> i16 {
    wrap16(emax_upto(st, na, e, cyls) - emin_upto(st, na, e, cyls))
}

/// The sample vector after the RPM high-byte merge: when the RPM feature is
/// present, the high byte folds into the RPM field and is zeroed.
pub open spec fn merged_data(st: Seq<i16>, rpm: bool) -> Seq<i16> {
    if rpm {
        st.update(
            IDX_RPM as int,
            wrap16(st[IDX_RPM as int] + st[IDX_RPM_HIGHBYTE_RCDT as int] * 256),
        ).update(IDX_RPM_HIGHBYTE_RCDT as int, 0i16)
    } else {
        st
    }
}

impl binary_record {
    /// The post-sample calculation: recomputes each engine's EGT span from
    /// the valid cylinders, then merges the RPM high byte into the RPM field
    /// when the header's RPM feature flag is set.
    pub fn calcstuff(&mut self, config: &ConfigInfo, header: &flightheader)
        requires
            spec_num_cyls(header.flags) <= 6 || spec_num_engines(*config) == 1,
        ensures
            final(self).data@ == merged_data(old(self).data@, spec_has_rpm(*header)),
            final(self).naflags@ == old(self).naflags@,
            final(self).dif@.len() == 2,
            forall|e: int|
                0 <= e < spec_num_engines(*config) ==> final(self).dif@[e] == spec_dif(
                    old(self).data@,
                    na_bits(old(self).naflags@),
                    e,
                    spec_num_cyls(header.flags) as int,
                ),
            forall|e: int|
                spec_num_engines(*config) <= e < 2 ==> final(self).dif@[e] == old(self).dif@[e],
    {
        let cyls = num_cyls(header.flags);
        let engines = num_engines(config);
        let ghost st0 = self.data@;
        let ghost na0 = na_bits(self.naflags@);
        let mut j: u32 = 0;
        while j < engines
            invariant
                j <= engines,
                engines == spec_num_engines(*config),
                1 <= engines <= 2,
                cyls == spec_num_cyls(header.flags),
                1 <= cyls <= 6,
                self.data@ == st0,
                st0 == old(self).data@,
                self.naflags@ == old(self).naflags@,
                na0 == na_bits(old(self).naflags@),
                self.dif@.len() == 2,
                forall|e: int| 0 <= e < j ==> self.dif@[e] == spec_dif(st0, na0, e, cyls as int),
                forall|e: int| j <= e < 2 ==> self.dif@[e] == old(self).dif@[e],
            decreases engines - j,
        {
            let mut emax: i16 = -1;
            let mut emin: i16 = 0x7FFF;
            let mut i: u32 = 0;
            while i < cyls
                invariant
                    i <= cyls <= 6,
                    j < engines <= 2,
                    self.data@ == st0,
                    self.naflags@ == old(self).naflags@,
                    na0 == na_bits(old(self).naflags@),
                    self.dif@.len() == 2,
                    emax as int == emax_upto(st0, na0, j as int, i as int),
                    emin as int == emin_upto(st0, na0, j as int, i as int),
                decreases cyls - i,
            {
                let idx = (if i < 6 {
                    i + j * TWINJUMP
                } else {
                    i - 6 + TWINJUMP
                }) as usize;
                proof {
                    assert(idx as int == egt_index(j as int, i as int));
                    assert(idx < 48);
                    assert(na0[idx as int] == bit_in(self.naflags@, idx as int));
                }
                if !test_bit(self.naflags[idx / 8], (idx % 8) as u32) {
                    let v = self.data.fields[idx];
                    if v < emin {
                        emin = v;
                    }
                    if v > emax {
                        emax = v;
                    }
                }
                i = i + 1;
            }
            let d = wrap16_exec(emax as i32 - emin as i32);
            self.dif[j as usize] = d;
            j = j + 1;
        }
        if has_rpm(header) {
            let v41 = self.data.fields[IDX_RPM];
            let v42 = self.data.fields[IDX_RPM_HIGHBYTE_RCDT];
            let m = wrap16_exec(v41 as i32 + (v42 as i32) * 256);
            self.data.fields[IDX_RPM] = m;
            self.data.fields[IDX_RPM_HIGHBYTE_RCDT] = 0;
            proof {
                assert(self.data@ =~= merged_data(st0, true));
            }
        }
    }
}

/// Reads the flag bytes that `decodeflags` marks present in bit range
/// `[lo, lo + N)`, starting at stream offset `pos`. Each present byte lands
/// in its logical slot; absent slots are zero.
fn parse_decode_bits<const N: usize>(
    input: &[u8],
    pos: usize,
    out: &mut [u8; N],
    decodeflags: u8,
    lo: u32,
) -> (newpos: usize)
    requires
        lo as int + N as int <= 8,
        pos as int + count_bits(decodeflags, lo as int, lo as int + N as int) <= input.len(),
    ensures
        newpos as int == pos as int + count_bits(decodeflags, lo as int, lo as int + N as int),
        forall|k: int|
            0 <= k < N ==> final(out)@[k] == (if bit_of(decodeflags, (lo + k) as u32) {
                input@[pos + count_bits(decodeflags, lo as int, lo as int + k)]
            } else {
                0u8
            }),
{
    proof {
        lemma_count_bits_bound(decodeflags, lo as int, lo as int + N as int);
    }
    let mut p = pos;
    let mut k: usize = 0;
    while k < N
        invariant
            k <= N,
            lo as int + N as int <= 8,
            p as int == pos as int + count_bits(decodeflags, lo as int, lo as int + k as int),
            pos as int + count_bits(decodeflags, lo as int, lo as int + N as int) <= input.len(),
            forall|j: int|
                0 <= j < k ==> out@[j] == (if bit_of(decodeflags, (lo + j) as u32) {
                    input@[pos + count_bits(decodeflags, lo as int, lo as int + j)]
                } else {
                    0u8
                }),
        decreases N - k,
    {
        proof {
            lemma_count_bits_mono(
                decodeflags,
                lo as int,
                lo as int + k as int + 1,
                lo as int + N as int,
            );
            lemma_count_bits_bound(decodeflags, lo as int, lo as int + k as int);
            assert(count_bits(decodeflags, lo as int, lo as int + k as int + 1) == count_bits(
                decodeflags,
                lo as int,
                lo as int + k as int,
            ) + if bit_of(decodeflags, (lo + k) as u32) {
                1int
            } else {
                0int
            });
        }
        if test_bit(decodeflags, lo + k as u32) {
            out[k] = input[p];
            p = p + 1;
        } else {
            out[k] = 0;
        }
        k = k + 1;
    }
    p
}

/// Applies the frame's field deltas to `st`, reading delta bytes from
/// `start` onward: one byte per set field-flag bit, in ascending flat
/// order, added or subtracted by the matching sign bit, with the
/// not-available bit set on a zero delta and cleared on a non-zero one.
#[verifier::loop_isolation(false)]
fn apply_field_deltas(
    st: &mut binary_record,
    prev: &binary_record,
    input: &[u8],
    field_flags: &[u8; 6],
    sign_flags: &[u8; 6],
    start: usize,
) -> (newc: usize)
    requires
        old(st).data@ == prev.data@,
        old(st).naflags@ == prev.naflags@,
        old(st).dif@ == prev.dif@,
        forall|k: int| 0 <= k < 6 ==> field_flags@[k] == field_flag(input@, k),
        forall|k: int| 0 <= k < 6 ==> sign_flags@[k] == sign_flag(input@, k),
        start as int == field_dif_off(input@),
        input@.len() >= field_dif_off(input@) + field_count(input@),
    ensures
        newc as int == scale_dif_off(input@),
        final(st).dif@ == prev.dif@,
        forall|j: int| #![trigger prev.data@[j]] 0 <= j < 48 ==> final(st).data@[j]
            == val_after_fields(prev.data@[j], input@, j),
        forall|j: int|
            #![trigger bit_in(prev.naflags@, j)]
            0 <= j < 48 ==> bit_in(final(st).naflags@, j) == na_after_fields(
                bit_in(prev.naflags@, j),
                input@,
                j,
            ),
{
    let ghost b = input@;
    let mut c: usize = start;
    let mut idx: usize = 0;
    while idx < 48
        invariant
            idx <= 48,
            c as int == field_dif_off(b) + frank(b, idx as int),
            forall|j2: int|
                #![trigger prev.data@[j2]]
                0 <= j2 < idx ==> st.data@[j2] == val_after_fields(prev.data@[j2], b, j2),
            forall|j2: int| #![trigger prev.data@[j2]] idx <= j2 < 48 ==> st.data@[j2]
                == prev.data@[j2],
            forall|j2: int|
                #![trigger bit_in(prev.naflags@, j2)]
                0 <= j2 < idx ==> bit_in(st.naflags@, j2) == na_after_fields(
                    bit_in(prev.naflags@, j2),
                    b,
                    j2,
                ),
            forall|j2: int|
                #![trigger bit_in(prev.naflags@, j2)]
                idx <= j2 < 48 ==> bit_in(st.naflags@, j2) == bit_in(prev.naflags@, j2),
            st.dif@ == prev.dif@,
        decreases 48 - idx,
    {
        let g = idx / 8;
        let bt = (idx % 8) as u32;
        proof {
            assert(frank(b, idx as int + 1) == frank(b, idx as int) + if fp(b, idx as int) {
                1int
            } else {
                0int
            });
            assert(fp(b, idx as int) == bit_of(field_flags@[g as int], bt));
            lemma_frank_mono(b, idx as int + 1, 48);
        }
        if test_bit(field_flags[g], bt) {
            let dbyte = input[c];
            proof {
                assert(dbyte == fdif(b, idx as int));
            }
            let sign = test_bit(sign_flags[g], bt);
            proof {
                assert(sign == sgn(b, idx as int));
            }
            let ghost data_before = st.data@;
            let ghost na_before = st.naflags@;
            let ov = st.data.fields[idx];
            let nv = if sign {
                wrap16_exec(ov as i32 - dbyte as i32)
            } else {
                wrap16_exec(ov as i32 + dbyte as i32)
            };
            let mut nab = st.naflags[g];
            if dbyte == 0 {
                crate::bits::set_bit(&mut nab, bt);
            } else {
                crate::bits::clear_bit(&mut nab, bt);
            }
            st.data.fields[idx] = nv;
            st.naflags[g] = nab;
            proof {
                assert(st.data@ == data_before.update(idx as int, nv));
                assert(nv == val_after_fields(prev.data@[idx as int], b, idx as int));
                if dbyte == 0 {
                    assert(st.naflags@ == na_before.update(
                        idx as int / 8,
                        na_before[idx as int / 8] | (1u8 << ((idx as int % 8) as u32)),
                    ));
                } else {
                    assert(st.naflags@ == na_before.update(
                        idx as int / 8,
                        na_before[idx as int / 8] & !(1u8 << ((idx as int % 8) as u32)),
                    ));
                }
                assert forall|j2: int|
                    #![trigger bit_in(prev.naflags@, j2)]
                    0 <= j2 < 48 implies bit_in(st.naflags@, j2) == (if j2 < idx as int + 1 {
                    na_after_fields(bit_in(prev.naflags@, j2), b, j2)
                } else {
                    bit_in(prev.naflags@, j2)
                }) by {
                    if dbyte == 0 {
                        crate::bits::lemma_set_bit_in(na_before, idx as int, j2);
                    } else {
                        crate::bits::lemma_clear_bit_in(na_before, idx as int, j2);
                    }
                }
                assert forall|j2: int| #![trigger prev.data@[j2]] 0 <= j2 < 48 implies st.data@[j2]
                    == (if j2 < idx as int + 1 {
                    val_after_fields(prev.data@[j2], b, j2)
                } else {
                    prev.data@[j2]
                }) by {
                    assert(st.data@[j2] == data_before.update(idx as int, nv)[j2]);
                }
            }
            c = c + 1;
        }
        idx = idx + 1;
    }
    c
}

/// Applies the frame's scale deltas to `st`, reading delta bytes from
/// `start` onward: one byte per set scale-flag bit, in ascending slot
/// order, shifted into the high byte and added or subtracted by the sign
/// bit of the targeted field. A zero byte is consumed but changes nothing.
#[verifier::loop_isolation(false)]
fn apply_scale_deltas(
    st: &mut binary_record,
    prev: &binary_record,
    input: &[u8],
    scale_flags: &[u8; 2],
    sign_flags: &[u8; 6],
    start: usize,
) -> (newc: usize)
    requires
        forall|j: int| #![trigger prev.data@[j]] 0 <= j < 48 ==> old(st).data@[j]
            == val_after_fields(prev.data@[j], input@, j),
        forall|j: int|
            #![trigger bit_in(prev.naflags@, j)]
            0 <= j < 48 ==> bit_in(old(st).naflags@, j) == na_after_fields(
                bit_in(prev.naflags@, j),
                input@,
                j,
            ),
        old(st).dif@ == prev.dif@,
        forall|k: int| 0 <= k < 2 ==> scale_flags@[k] == scale_flag(input@, k),
        forall|k: int| 0 <= k < 6 ==> sign_flags@[k] == sign_flag(input@, k),
        start as int == scale_dif_off(input@),
        input@.len() >= scale_dif_off(input@) + scale_count(input@),
    ensures
        newc as int == frame_total(input@) - 1,
        final(st).dif@ == prev.dif@,
        forall|j: int| #![trigger prev.data@[j]] 0 <= j < 48 ==> final(st).data@[j]
            == val_after_scale(prev.data@[j], input@, j),
        forall|j: int|
            #![trigger bit_in(prev.naflags@, j)]
            0 <= j < 48 ==> bit_in(final(st).naflags@, j) == na_after_scale(
                bit_in(prev.naflags@, j),
                input@,
                j,
            ),
{
    let ghost b = input@;
    let mut c: usize = start;
    let mut s: usize = 0;
    while s < 16
        invariant
            s <= 16,
            c as int == scale_dif_off(b) + srank(b, s as int),
            forall|j2: int|
                #![trigger prev.data@[j2]]
                0 <= j2 < 48 ==> st.data@[j2] == (if 0 <= scale_slot_of(j2) < s {
                    val_after_scale(prev.data@[j2], b, j2)
                } else {
                    val_after_fields(prev.data@[j2], b, j2)
                }),
            forall|j2: int|
                #![trigger bit_in(prev.naflags@, j2)]
                0 <= j2 < 48 ==> bit_in(st.naflags@, j2) == (if 0 <= scale_slot_of(j2) < s {
                    na_after_scale(bit_in(prev.naflags@, j2), b, j2)
                } else {
                    na_after_fields(bit_in(prev.naflags@, j2), b, j2)
                }),
            st.dif@ == prev.dif@,
        decreases 16 - s,
    {
        let f = s / 8;
        let bt = (s % 8) as u32;
        proof {
            assert(srank(b, s as int + 1) == srank(b, s as int) + if sp(b, s as int) {
                1int
            } else {
                0int
            });
            assert(sp(b, s as int) == bit_of(scale_flags@[f as int], bt));
            lemma_srank_mono(b, s as int + 1, 16);
        }
        if test_bit(scale_flags[f], bt) {
            let x = input[c];
            proof {
                assert(x == sdif(b, s as int));
            }
            if x != 0 {
                let tidx = f * 24 + (s % 8);
                proof {
                    assert(scale_slot_of(tidx as int) == s as int);
                    assert(tidx < 48);
                    assert(scale_applies(b, tidx as int));
                }
                let g2 = tidx / 8;
                let b2 = (tidx % 8) as u32;
                let sign = test_bit(sign_flags[g2], b2);
                proof {
                    assert(sign == sgn(b, tidx as int));
                }
                let ghost data_before = st.data@;
                let ghost na_before = st.naflags@;
                let ov = st.data.fields[tidx];
                proof {
                    assert(ov == val_after_fields(prev.data@[tidx as int], b, tidx as int));
                }
                let nv = if sign {
                    wrap16_exec(ov as i32 - (x as i32) * 256)
                } else {
                    wrap16_exec(ov as i32 + (x as i32) * 256)
                };
                let mut nab = st.naflags[g2];
                crate::bits::clear_bit(&mut nab, b2);
                st.data.fields[tidx] = nv;
                st.naflags[g2] = nab;
                proof {
                    assert(st.data@ == data_before.update(tidx as int, nv));
                    assert(nv == val_after_scale(prev.data@[tidx as int], b, tidx as int));
                    assert(st.naflags@ == na_before.update(
                        tidx as int / 8,
                        na_before[tidx as int / 8] & !(1u8 << ((tidx as int % 8) as u32)),
                    ));
                    assert forall|j2: int|
                        #![trigger bit_in(prev.naflags@, j2)]
                        0 <= j2 < 48 implies bit_in(st.naflags@, j2) == (if 0 <= scale_slot_of(j2)
                        < s as int + 1 {
                        na_after_scale(bit_in(prev.naflags@, j2), b, j2)
                    } else {
                        na_after_fields(bit_in(prev.naflags@, j2), b, j2)
                    }) by {
                        crate::bits::lemma_clear_bit_in(na_before, tidx as int, j2);
                    }
                    assert forall|j2: int|
                        #![trigger prev.data@[j2]]
                        0 <= j2 < 48 implies st.data@[j2] == (if 0 <= scale_slot_of(j2) < s as int
                        + 1 {
                        val_after_scale(prev.data@[j2], b, j2)
                    } else {
                        val_after_fields(prev.data@[j2], b, j2)
                    }) by {
                        assert(st.data@[j2] == data_before.update(tidx as int, nv)[j2]);
                    }
                }
            } else {
                proof {
                    assert forall|j2: int|
                        #![trigger prev.data@[j2]]
                        0 <= j2 < 48 && scale_slot_of(j2) == s as int implies st.data@[j2]
                        == val_after_scale(prev.data@[j2], b, j2) && bit_in(st.naflags@, j2)
                        == na_after_scale(bit_in(prev.naflags@, j2), b, j2) by {
                        assert(!scale_applies(b, j2));
                    }
                }
            }
            c = c + 1;
        } else {
            proof {
                assert forall|j2: int|
                    #![trigger prev.data@[j2]]
                    0 <= j2 < 48 && scale_slot_of(j2) == s as int implies st.data@[j2]
                    == val_after_scale(prev.data@[j2], b, j2) && bit_in(st.naflags@, j2)
                    == na_after_scale(bit_in(prev.naflags@, j2), b, j2) by {
                    assert(!scale_applies(b, j2));
                    assert(bit_in(prev.naflags@, j2) == bit_in(prev.naflags@, j2));
                }
            }
        }
        s = s + 1;
    }
    c
}

/// How the decode of one frame fails, if it does, against the bytes `b` and
/// the configured engine count: too few bytes at any of the three reading
/// stages is `ShortRead`; unequal decode bytes, a second scale-flag byte on
/// a single engine, or both RPM sign bits set under the quirk are
/// `BadFrame`; a repeat count above one is `Unsupported`; and a checksum
/// mismatch over the frame's bytes is `BadChecksum`.
pub open spec fn frame_error(b: Seq<u8>, engines: u32) -> Option<ErrorKind> {
    if b.len() < 3 {
        Some(ErrorKind::ShortRead)
    } else if b[0] != b[1] {
        Some(ErrorKind::BadFrame)
    } else if b[2] > 1 {
        Some(ErrorKind::Unsupported)
    } else if b[2] == 1 {
        None
    } else if b.len() < field_dif_off(b) {
        Some(ErrorKind::ShortRead)
    } else if engines == 1 && scale_flag(b, 1) != 0 {
        Some(ErrorKind::BadFrame)
    } else if b.len() < frame_total(b) - 1 {
        Some(ErrorKind::ShortRead)
    } else if engines == 1 && sgn(b, IDX_RPM as int) && sgn(b, IDX_RPM_HIGHBYTE_RCDT as int) {
        Some(ErrorKind::BadFrame)
    } else if b.len() < frame_total(b) {
        Some(ErrorKind::ShortRead)
    } else if b[frame_total(b) - 1] != sum8_neg(b.take(frame_total(b) - 1)) {
        Some(ErrorKind::BadChecksum)
    } else {
        None
    }
}

/// A non-repeat frame's size is fully determined by its masks: the three
/// header bytes, one field-flag byte and one sign-flag byte per set bit of
/// the low six decode bits, one scale-flag byte per set bit of the high
/// two, one delta byte per set field-flag bit, one per set scale-flag bit,
/// and the checksum byte.
pub proof fn lemma_frame_size(b: Seq<u8>)
    ensures
        frame_total(b) == 3 + nf_of(b) + ns_of(b) + nf_of(b) + field_count(b) + scale_count(b)
            + 1,
{
}

/// Within one decoded frame, a field the frame touches is marked
/// not-available exactly when its field delta was zero and no non-zero
/// scale delta reached it; a field the frame does not touch keeps its
/// previous mark. The single-engine RPM quirk is the one exception, which
/// the hypothesis leaves out: when it fires and leaves a non-zero high
/// byte, it clears the RPM field's mark regardless of that field's deltas.
pub proof fn lemma_na_coherence(prev: binary_record, b: Seq<u8>, engines: u32, idx: int)
    requires
        0 <= idx < 48,
        !(idx == IDX_RPM as int && rpm_quirk(b, engines) && decoded_val(
            prev,
            b,
            engines,
            IDX_RPM_HIGHBYTE_RCDT as int,
        ) != 0),
    ensures
        fp(b, idx) || scale_applies(b, idx) ==> (decoded_na(prev, b, engines, idx) <==> (fp(
            b,
            idx,
        ) && fdif(b, idx) == 0 && !scale_applies(b, idx))),
        !(fp(b, idx) || scale_applies(b, idx)) ==> decoded_na(prev, b, engines, idx) == bit_in(
            prev.naflags@,
            idx,
        ),
{
}

proof fn lemma_extrema_ignore_high(st1: Seq<i16>, st2: Seq<i16>, na: Seq<bool>, e: int, n: int)
    requires
        0 <= e < 2,
        0 <= n <= 12,
        forall|i: int| 0 <= i < 40 ==> st1[i] == st2[i],
    ensures
        emax_upto(st1, na, e, n) == emax_upto(st2, na, e, n),
        emin_upto(st1, na, e, n) == emin_upto(st2, na, e, n),
    decreases n,
{
    if n > 0 {
        lemma_extrema_ignore_high(st1, st2, na, e, n - 1);
        assert(0 <= egt_index(e, n - 1) < 40);
    }
}

/// The post-sample calculation is idempotent: merging the RPM high byte a
/// second time adds the zero it left behind, and the EGT spans read only
/// fields below the RPM pair, which the merge does not touch.
pub proof fn lemma_postcalc_idempotent(
    st: Seq<i16>,
    na: Seq<bool>,
    e: int,
    cyls: int,
    rpm: bool,
)
    requires
        st.len() == 48,
        0 <= e < 2,
        0 <= cyls <= 12,
    ensures
        merged_data(merged_data(st, rpm), rpm) == merged_data(st, rpm),
        spec_dif(merged_data(st, rpm), na, e, cyls) == spec_dif(st, na, e, cyls),
{
    let m = merged_data(st, rpm);
    if rpm {
        assert(m[IDX_RPM_HIGHBYTE_RCDT as int] == 0i16);
        lemma_wrap16_small(m[IDX_RPM as int] as int);
        assert(merged_data(m, rpm) =~= m);
    }
    lemma_extrema_ignore_high(m, st, na, e, cyls);
}

/// How many bytes one accepted frame takes: three for a repeat frame, the
/// full mask-determined size otherwise.
pub open spec fn frame_len(b: Seq<u8>) -> int
    recommends
        frame_error(b, 1) is None || frame_error(b, 2) is None,
{
    if b[2] == 1 {
        3
    } else {
        frame_total(b)
    }
}

/// What one accepted frame leaves behind: a repeat frame re-emits the
/// previous sample byte for byte; any other frame yields the decoded and
/// post-calculated sample, with its not-available bits and EGT spans.
pub open spec fn frame_post(
    prev: binary_record,
    out: binary_record,
    b: Seq<u8>,
    config: ConfigInfo,
    fh: flightheader,
) -> bool {
    let engines = spec_num_engines(config);
    &&& (b[2] == 1 ==> out.data@ == prev.data@ && out.naflags@ == prev.naflags@ && out.dif@
        == prev.dif@)
    &&& (b[2] == 0 ==> {
        &&& out.data@ == merged_data(decoded_data(prev, b, engines), spec_has_rpm(fh))
        &&& out.naflags@.len() == 6
        &&& forall|idx: int|
            0 <= idx < 48 ==> bit_in(out.naflags@, idx) == decoded_na(prev, b, engines, idx)
        &&& out.dif@.len() == 2
        &&& forall|e: int|
            0 <= e < engines ==> out.dif@[e] == spec_dif(
                decoded_data(prev, b, engines),
                decoded_nas(prev, b, engines),
                e,
                spec_num_cyls(fh.flags) as int,
            )
        &&& forall|e: int| engines <= e < 2 ==> out.dif@[e] == prev.dif@[e]
    })
}

/// Decodes one frame against the previous sample, returning how many bytes
/// it consumed and the next sample.
///
/// A repeat frame (`repeat == 1`) is exactly three bytes, carries no
/// checksum, and re-emits the previous sample unchanged. A non-repeat frame
/// applies its field, scale and quirk deltas, recomputes the per-engine EGT
/// spans and the RPM merge, and must close with a valid additive checksum
/// over everything before the checksum byte.
#[verifier::loop_isolation(false)]
pub fn parse_binary_record(
    prev: &binary_record,
    input: &[u8],
    config: &ConfigInfo,
    fheader: &flightheader,
) -> (r: Result<(usize, binary_record), ErrorKind>)
    requires
        composed_flags(*config) == fheader.flags,
    ensures
        match r {
            Ok(res) => {
                &&& frame_error(input@, spec_num_engines(*config)) is None
                &&& res.0 as int == frame_len(input@)
                &&& frame_post(*prev, res.1, input@, *config, *fheader)
            },
            Err(e) => frame_error(input@, spec_num_engines(*config)) == Some(e),
        },
{
    let ghost b = input@;
    let engines = num_engines(config);
    if input.len() < 3 {
        return Err(ErrorKind::ShortRead);
    }
    let d0 = input[0];
    if d0 != input[1] {
        return Err(ErrorKind::BadFrame);
    }
    let rep = input[2];
    if rep > 1 {
        return Err(ErrorKind::Unsupported);
    }
    if rep == 1 {
        return Ok((3, *prev));
    }
    let nf = popcount_range(d0, 0, 6);
    let ns = popcount_range(d0, 6, 8);
    let masks_end: usize = 3 + (nf as usize) + (ns as usize) + (nf as usize);
    proof {
        assert(masks_end as int == field_dif_off(b));
    }
    if input.len() < masks_end {
        return Err(ErrorKind::ShortRead);
    }
    let mut field_flags = [0u8; 6];
    let mut scale_flags = [0u8; 2];
    let mut sign_flags = [0u8; 6];
    proof {
        lemma_count_bits_bound(d0, 0, 6);
        lemma_count_bits_bound(d0, 6, 8);
    }
    let p1 = parse_decode_bits(input, 3, &mut field_flags, d0, 0);
    let p2 = parse_decode_bits(input, p1, &mut scale_flags, d0, 6);
    let p3 = parse_decode_bits(input, p2, &mut sign_flags, d0, 0);
    proof {
        assert(p3 == masks_end);
        assert forall|k: int| 0 <= k < 6 implies field_flags@[k] == field_flag(b, k) by {}
        assert forall|k: int| 0 <= k < 2 implies scale_flags@[k] == scale_flag(b, k) by {}
        assert forall|k: int| 0 <= k < 6 implies sign_flags@[k] == sign_flag(b, k) by {}
    }
    if engines == 1 && scale_flags[1] != 0 {
        return Err(ErrorKind::BadFrame);
    }

    // count the field-delta and scale-delta bytes the masks call for
    let mut fcount: usize = 0;
    let mut idx: usize = 0;
    while idx < 48
        invariant
            idx <= 48,
            fcount as int == frank(b, idx as int),
            fcount <= idx,
        decreases 48 - idx,
    {
        proof {
            assert(frank(b, idx as int + 1) == frank(b, idx as int) + if fp(b, idx as int) {
                1int
            } else {
                0int
            });
            assert(fp(b, idx as int) == bit_of(field_flags@[idx as int / 8], (idx % 8) as u32));
        }
        if test_bit(field_flags[idx / 8], (idx % 8) as u32) {
            fcount = fcount + 1;
        }
        idx = idx + 1;
    }
    let mut scount: usize = 0;
    let mut s: usize = 0;
    while s < 16
        invariant
            s <= 16,
            scount as int == srank(b, s as int),
            scount <= s,
        decreases 16 - s,
    {
        proof {
            assert(srank(b, s as int + 1) == srank(b, s as int) + if sp(b, s as int) {
                1int
            } else {
                0int
            });
            assert(sp(b, s as int) == bit_of(scale_flags@[s as int / 8], (s % 8) as u32));
        }
        if test_bit(scale_flags[s / 8], (s % 8) as u32) {
            scount = scount + 1;
        }
        s = s + 1;
    }
    let deltas_end: usize = masks_end + fcount + scount;
    proof {
        assert(deltas_end as int == frame_total(b) - 1);
    }
    if input.len() < deltas_end {
        return Err(ErrorKind::ShortRead);
    }

    let mut out = *prev;
    let c1 = apply_field_deltas(&mut out, prev, input, &field_flags, &sign_flags, masks_end);
    let c = apply_scale_deltas(&mut out, prev, input, &scale_flags, &sign_flags, c1);
    proof {
        assert(c == deltas_end);
    }

    // single-engine RPM sign quirk: a signed RPM delta negates the high
    // byte in place; both sign bits at once is a bad frame
    if engines == 1 && test_bit(sign_flags[5], 1) {
        proof {
            assert(sgn(b, IDX_RPM as int) == bit_of(sign_flags@[5], 1));
            assert(sgn(b, IDX_RPM_HIGHBYTE_RCDT as int) == bit_of(sign_flags@[5], 2));
            assert(rpm_quirk(b, engines));
        }
        if test_bit(sign_flags[5], 2) {
            return Err(ErrorKind::BadFrame);
        }
        let ghost v2data = out.data@;
        let ghost v2na = out.naflags@;
        let ov = out.data.fields[IDX_RPM_HIGHBYTE_RCDT];
        proof {
            assert(ov == val_after_scale(
                prev.data@[IDX_RPM_HIGHBYTE_RCDT as int],
                b,
                IDX_RPM_HIGHBYTE_RCDT as int,
            ));
        }
        let nv = wrap16_exec(-(ov as i32));
        proof {
            assert(nv == decoded_val(*prev, b, engines, IDX_RPM_HIGHBYTE_RCDT as int));
        }
        out.data.fields[IDX_RPM_HIGHBYTE_RCDT] = nv;
        if nv != 0 {
            let mut nab = out.naflags[5];
            crate::bits::clear_bit(&mut nab, 1);
            out.naflags[5] = nab;
            proof {
                assert(out.data@ == v2data.update(IDX_RPM_HIGHBYTE_RCDT as int, nv));
                assert(out.naflags@ == v2na.update(
                    IDX_RPM as int / 8,
                    v2na[IDX_RPM as int / 8] & !(1u8 << ((IDX_RPM as int % 8) as u32)),
                ));
                assert forall|i2: int|
                    #![trigger bit_in(prev.naflags@, i2)]
                    0 <= i2 < 48 implies bit_in(out.naflags@, i2) == decoded_na(
                    *prev,
                    b,
                    engines,
                    i2,
                ) by {
                    crate::bits::lemma_clear_bit_in(v2na, IDX_RPM as int, i2);
                }
                assert forall|i2: int|
                    #![trigger prev.data@[i2]]
                    0 <= i2 < 48 implies out.data@[i2] == decoded_val(*prev, b, engines, i2) by {
                    assert(out.data@[i2] == v2data.update(IDX_RPM_HIGHBYTE_RCDT as int, nv)[i2]);
                }
            }
        } else {
            proof {
                assert(out.data@ == v2data.update(IDX_RPM_HIGHBYTE_RCDT as int, nv));
                assert(out.naflags@ == v2na);
                assert forall|i2: int|
                    #![trigger bit_in(prev.naflags@, i2)]
                    0 <= i2 < 48 implies bit_in(out.naflags@, i2) == decoded_na(
                    *prev,
                    b,
                    engines,
                    i2,
                ) by {
                    assert(bit_in(v2na, i2) == na_after_scale(bit_in(prev.naflags@, i2), b, i2));
                }
                assert forall|i2: int|
                    #![trigger prev.data@[i2]]
                    0 <= i2 < 48 implies out.data@[i2] == decoded_val(*prev, b, engines, i2) by {
                    assert(out.data@[i2] == v2data.update(IDX_RPM_HIGHBYTE_RCDT as int, nv)[i2]);
                }
            }
        }
    } else {
        proof {
            assert(sgn(b, IDX_RPM as int) == bit_of(sign_flags@[5], 1));
            assert(!rpm_quirk(b, engines));
            assert forall|i2: int|
                #![trigger prev.data@[i2]]
                0 <= i2 < 48 implies out.data@[i2] == decoded_val(*prev, b, engines, i2) by {
            }
            assert forall|i2: int|
                #![trigger bit_in(prev.naflags@, i2)]
                0 <= i2 < 48 implies bit_in(out.naflags@, i2) == decoded_na(
                *prev,
                b,
                engines,
                i2,
            ) by {
            }
        }
    }
    proof {
        assert forall|i2: int| 0 <= i2 < 48 implies out.data@[i2] == decoded_val(
            *prev,
            b,
            engines,
            i2,
        ) by {
        }
        assert(out.data@ =~= decoded_data(*prev, b, engines));
        assert(out.data@ == decoded_data(*prev, b, engines));
        assert forall|i2: int| 0 <= i2 < 48 implies bit_in(out.naflags@, i2) == decoded_na(
            *prev,
            b,
            engines,
            i2,
        ) by {
        }
        assert(na_bits(out.naflags@) =~= decoded_nas(*prev, b, engines));
        assert(na_bits(out.naflags@) == decoded_nas(*prev, b, engines));
    }
    let ghost dec_data = decoded_data(*prev, b, engines);

    proof {
        lemma_count_bits_bound((fheader.flags & 0x3F) as u8, 0, 6);
    }
    out.calcstuff(config, fheader);

    // the frame checksum covers every byte before the checksum byte
    let total = deltas_end + 1;
    if input.len() < total {
        return Err(ErrorKind::ShortRead);
    }
    let ck = input[deltas_end];
    let computed = calc_checksum(&input[0..deltas_end]);
    proof {
        assert(input@.subrange(0, deltas_end as int) =~= input@.take(frame_total(b) - 1));
    }
    if ck != computed {
        return Err(ErrorKind::BadChecksum);
    }
    proof {
        assert(frame_error(b, engines) is None);
    }
    Ok((total, out))
}

/// Whether the sample chain `states` is exactly what decoding the stream
/// `b` from offset `from` yields: each consecutive pair of states is one
/// accepted frame, and the frames lie end to end.
pub open spec fn chain_ok(
    states: Seq<binary_record>,
    b: Seq<u8>,
    from: int,
    config: ConfigInfo,
    fh: flightheader,
) -> bool
    decreases states.len(),
{
    states.len() >= 1 && (states.len() > 1 ==> {
        let suffix = b.subrange(from, b.len() as int);
        &&& frame_error(suffix, spec_num_engines(config)) is None
        &&& frame_post(states[0], states[1], suffix, config, fh)
        &&& chain_ok(states.drop_first(), b, from + frame_len(suffix), config, fh)
    })
}

/// The offset right after the chain's last frame.
pub open spec fn chain_end(states: Seq<binary_record>, b: Seq<u8>, from: int) -> int
    decreases states.len(),
{
    if states.len() <= 1 {
        from
    } else {
        let suffix = b.subrange(from, b.len() as int);
        chain_end(states.drop_first(), b, from + frame_len(suffix))
    }
}

/// Extending a chain by one accepted frame at its end keeps it a chain.
proof fn lemma_chain_snoc(
    states: Seq<binary_record>,
    next: binary_record,
    b: Seq<u8>,
    from: int,
    config: ConfigInfo,
    fh: flightheader,
)
    requires
        chain_ok(states, b, from, config, fh),
        frame_error(
            b.subrange(chain_end(states, b, from), b.len() as int),
            spec_num_engines(config),
        ) is None,
        frame_post(
            states.last(),
            next,
            b.subrange(chain_end(states, b, from), b.len() as int),
            config,
            fh,
        ),
    ensures
        chain_ok(states.push(next), b, from, config, fh),
        chain_end(states.push(next), b, from) == chain_end(states, b, from) + frame_len(
            b.subrange(chain_end(states, b, from), b.len() as int),
        ),
    decreases states.len(),
{
    let pushed = states.push(next);
    if states.len() == 1 {
        assert(pushed[0] == states[0]);
        assert(pushed[1] == next);
        assert(chain_end(states, b, from) == from);
        assert(pushed.drop_first() =~= seq![next]);
        let suffix = b.subrange(from, b.len() as int);
        assert(chain_ok(seq![next], b, from + frame_len(suffix), config, fh));
        assert(chain_end(pushed, b, from) == chain_end(
            pushed.drop_first(),
            b,
            from + frame_len(suffix),
        ));
        assert(chain_end(seq![next], b, from + frame_len(suffix)) == from + frame_len(suffix));
    } else {
        let suffix = b.subrange(from, b.len() as int);
        assert(states.last() == states.drop_first().last());
        lemma_chain_snoc(states.drop_first(), next, b, from + frame_len(suffix), config, fh);
        assert(pushed.drop_first() =~= states.drop_first().push(next));
        assert(pushed[0] == states[0]);
        assert(pushed[1] == states[1]);
        assert(chain_end(pushed, b, from) == chain_end(
            states.drop_first().push(next),
            b,
            from + frame_len(suffix),
        ));
        assert(chain_end(states, b, from) == chain_end(
            states.drop_first(),
            b,
            from + frame_len(suffix),
        ));
    }
}

/// An accepted frame fits inside its stream and is at least three bytes.
proof fn lemma_frame_len_bounds(suffix: Seq<u8>, engines: u32)
    requires
        frame_error(suffix, engines) is None,
    ensures
        3 <= frame_len(suffix) <= suffix.len(),
{
    lemma_count_bits_bound(suffix[0], 0, 6);
    lemma_count_bits_bound(suffix[0], 6, 8);
    lemma_frank_nonneg(suffix, 48);
    lemma_srank_nonneg(suffix, 16);
}

/// Decodes a whole flight stream: applies the record decoder frame after
/// frame until the buffer is exhausted, returning the decoded samples in
/// order. On success the initial state followed by the returned samples is
/// exactly the chain the stream denotes, and the chain covers the whole
/// buffer; on failure some strict prefix of the buffer decodes to a chain
/// from the initial state, and the frame that starts right after that
/// prefix, inside the buffer, is the one that fails. An exhausted buffer is
/// always success.
#[verifier::loop_isolation(false)]
pub fn decode_stream(
    init: &binary_record,
    buf: &[u8],
    config: &ConfigInfo,
    fheader: &flightheader,
) -> (r: Result<Vec<binary_record>, ErrorKind>)
    requires
        composed_flags(*config) == fheader.flags,
    ensures
        match r {
            Ok(samples) => {
                let states = seq![*init] + samples@;
                &&& chain_ok(states, buf@, 0, *config, *fheader)
                &&& chain_end(states, buf@, 0) == buf@.len()
            },
            Err(e) => exists|states: Seq<binary_record>|
                {
                    &&& states.len() >= 1
                    &&& states[0] == *init
                    &&& #[trigger] chain_ok(states, buf@, 0, *config, *fheader)
                    &&& chain_end(states, buf@, 0) < buf@.len()
                    &&& frame_error(
                        buf@.subrange(chain_end(states, buf@, 0), buf@.len() as int),
                        spec_num_engines(*config),
                    ) == Some(e)
                },
        },
{
    let mut samples: Vec<binary_record> = Vec::new();
    let mut state: binary_record = *init;
    let mut off: usize = 0;
    proof {
        assert(seq![*init] + samples@ =~= seq![*init]);
    }
    while off < buf.len()
        invariant
            off <= buf.len(),
            chain_ok(seq![*init] + samples@, buf@, 0, *config, *fheader),
            chain_end(seq![*init] + samples@, buf@, 0) == off as int,
            state == (seq![*init] + samples@).last(),
        decreases buf.len() - off,
    {
        let ghost states = seq![*init] + samples@;
        match parse_binary_record(&state, &buf[off..buf.len()], config, fheader) {
            Ok((n, next)) => {
                proof {
                    lemma_frame_len_bounds(
                        buf@.subrange(off as int, buf@.len() as int),
                        spec_num_engines(*config),
                    );
                    lemma_chain_snoc(states, next, buf@, 0, *config, *fheader);
                    assert(seq![*init] + samples@.push(next) =~= states.push(next));
                }
                samples.push(next);
                state = next;
                off = off + n;
            },
            Err(e) => {
                proof {
                    assert(states[0] == *init);
                    assert(chain_ok(states, buf@, 0, *config, *fheader));
                    assert(chain_end(states, buf@, 0) < buf@.len());
                }
                return Err(e);
            },
        }
    }
    Ok(samples)
}

} // verus!
