use edmlog::data::binary_record;
use edmlog::data::compose_flags;
use edmlog::data::decode_stream;
use edmlog::data::data_record;
use edmlog::data::flightheader;
use edmlog::data::has_rpm;
use edmlog::data::num_cyls;
use edmlog::data::num_engines;
use edmlog::data::parse_binary_record;
use edmlog::data::read_flight_header;
use edmlog::data::IDX_HP_RT1;
use edmlog::data::IDX_RPM;
use edmlog::data::IDX_RPM_HIGHBYTE_RCDT;
use edmlog::headers::ConfigInfo;
use edmlog::ErrorKind;

fn single_engine_config() -> ConfigInfo {
    // six EGT sensors in the low feature bits, no RPM feature
    ConfigInfo {
        model_number: 700,
        feature_flags_lo: 0x003F,
        feature_flags_hi: 0,
        unknown_flags: 0,
        firmware_version: 1,
    }
}

fn header_for(config: &ConfigInfo) -> flightheader {
    flightheader {
        flightnumber: 1,
        flags: compose_flags(config),
        unknown: 0,
        interval_secs: 6,
        datebits: 0,
        timebits: 0,
    }
}

#[test]
fn configuration_helpers() {
    let config = single_engine_config();
    assert_eq!(num_engines(&config), 1);
    let twin = ConfigInfo { model_number: 760, ..config };
    assert_eq!(num_engines(&twin), 2);
    assert_eq!(num_cyls(0x3F), 6);
    assert_eq!(num_cyls(0x0F), 4);
    assert_eq!(num_cyls(0), 1);
    assert_eq!(compose_flags(&config), 0x3F);
    let example = ConfigInfo {
        model_number: 700,
        feature_flags_lo: 63741,
        feature_flags_hi: 6193,
        unknown_flags: 1552,
        firmware_version: 292,
    };
    assert_eq!(compose_flags(&example), 0x1831_F8FD);
    let h = flightheader { flags: 0x1831_F8FD, ..header_for(&config) };
    assert!(!has_rpm(&h));
    let h2 = flightheader { flags: 1 << 26, ..h };
    assert!(has_rpm(&h2));
}

#[test]
fn initial_state() {
    let config = single_engine_config();
    let state = binary_record::new(&config);
    for i in 0..48 {
        if i == IDX_HP_RT1 || i == IDX_RPM_HIGHBYTE_RCDT {
            assert_eq!(state.data.fields[i], 0);
        } else {
            assert_eq!(state.data.fields[i], 0x00F0);
        }
    }
    assert_eq!(state.naflags, [0u8; 6]);
    assert_eq!(state.dif, [0i16; 2]);

    let twin = ConfigInfo { model_number: 760, ..config };
    let tstate = binary_record::new(&twin);
    for i in 0..48 {
        assert_eq!(tstate.data.fields[i], 0x00F0);
    }
}

#[test]
fn single_field_delta() {
    let config = single_engine_config();
    let fh = header_for(&config);
    let prev = binary_record::new(&config);
    // one frame: field group 0 present, delta 0x10 on cylinder 0
    let frame = [0x01u8, 0x01, 0x00, 0x01, 0x00, 0x10, 237];
    let (consumed, next) = parse_binary_record(&prev, &frame, &config, &fh).unwrap();
    assert_eq!(consumed, 7);
    assert_eq!(next.data.fields[0], 0x0100);
    for i in 1..48 {
        assert_eq!(next.data.fields[i], prev.data.fields[i]);
    }
    // non-zero delta leaves the field available
    assert_eq!(next.naflags, [0u8; 6]);
    // EGT span: 0x100 max against 0xF0 on the other five cylinders
    assert_eq!(next.dif, [0x10, 0]);
}

#[test]
fn signed_field_delta() {
    let config = single_engine_config();
    let fh = header_for(&config);
    let prev = binary_record::new(&config);
    let frame = [0x01u8, 0x01, 0x00, 0x01, 0x01, 0x10, 236];
    let (consumed, next) = parse_binary_record(&prev, &frame, &config, &fh).unwrap();
    assert_eq!(consumed, 7);
    assert_eq!(next.data.fields[0], 0x00E0);
    assert_eq!(next.dif, [0x10, 0]);
}

#[test]
fn zero_field_delta_marks_not_available() {
    let config = single_engine_config();
    let fh = header_for(&config);
    let prev = binary_record::new(&config);
    let frame = [0x01u8, 0x01, 0x00, 0x01, 0x00, 0x00, 253];
    let (consumed, next) = parse_binary_record(&prev, &frame, &config, &fh).unwrap();
    assert_eq!(consumed, 7);
    assert_eq!(next.data.fields[0], 0x00F0);
    assert_eq!(next.naflags[0], 0x01);
    // cylinder 0 is excluded from the span, the rest are all equal
    assert_eq!(next.dif, [0, 0]);
}

#[test]
fn scale_delta_adds_high_byte() {
    let config = single_engine_config();
    let fh = header_for(&config);
    let prev = binary_record::new(&config);
    // field group 0 and scale group 0 present: a zero field delta marks
    // cylinder 0 not-available, then a non-zero scale delta of 0x01 makes
    // it available again and adds 0x100
    let frame = [0x41u8, 0x41, 0x00, 0x01, 0x01, 0x00, 0x00, 0x01, 123];
    let (consumed, next) = parse_binary_record(&prev, &frame, &config, &fh).unwrap();
    assert_eq!(consumed, 9);
    assert_eq!(next.data.fields[0], 0x01F0);
    assert_eq!(next.naflags, [0u8; 6]);
    assert_eq!(next.dif, [0x100, 0]);
}

#[test]
fn repeat_frame_returns_identical_state() {
    let config = single_engine_config();
    let fh = header_for(&config);
    let mut prev = binary_record::new(&config);
    prev.data.fields[7] = -123;
    prev.naflags[2] = 0x40;
    prev.dif = [5, -1];
    let frame = [0x00u8, 0x00, 0x01];
    let (consumed, next) = parse_binary_record(&prev, &frame, &config, &fh).unwrap();
    assert_eq!(consumed, 3);
    assert_eq!(next, prev);
    // only the three header bytes are consumed, whatever follows them
    let longer = [0x3Fu8, 0x3F, 0x01, 0xAA, 0xBB];
    let (consumed2, next2) = parse_binary_record(&prev, &longer, &config, &fh).unwrap();
    assert_eq!(consumed2, 3);
    assert_eq!(next2, prev);
}

#[test]
fn frame_errors() {
    let config = single_engine_config();
    let fh = header_for(&config);
    let prev = binary_record::new(&config);
    assert_eq!(parse_binary_record(&prev, &[1, 1], &config, &fh), Err(ErrorKind::ShortRead));
    assert_eq!(parse_binary_record(&prev, &[1, 2, 0], &config, &fh), Err(ErrorKind::BadFrame));
    assert_eq!(parse_binary_record(&prev, &[0, 0, 2], &config, &fh), Err(ErrorKind::Unsupported));
    // masks promised but not present
    assert_eq!(parse_binary_record(&prev, &[0x01, 0x01, 0], &config, &fh), Err(ErrorKind::ShortRead));
    // a second scale-flag byte on a single-engine configuration
    assert_eq!(
        parse_binary_record(&prev, &[0x80, 0x80, 0, 0x01, 0, 0], &config, &fh),
        Err(ErrorKind::BadFrame)
    );
    // delta bytes promised but not present
    assert_eq!(
        parse_binary_record(&prev, &[0x01, 0x01, 0, 0x01, 0x00], &config, &fh),
        Err(ErrorKind::ShortRead)
    );
    // missing checksum byte
    assert_eq!(
        parse_binary_record(&prev, &[0x01, 0x01, 0, 0x01, 0x00, 0x10], &config, &fh),
        Err(ErrorKind::ShortRead)
    );
    // wrong checksum byte
    assert_eq!(
        parse_binary_record(&prev, &[0x01, 0x01, 0, 0x01, 0x00, 0x10, 236], &config, &fh),
        Err(ErrorKind::BadChecksum)
    );
}

#[test]
fn rpm_quirk_rejects_double_sign() {
    let config = single_engine_config();
    let fh = header_for(&config);
    let prev = binary_record::new(&config);
    // field group 5 present with RPM and high-byte deltas, both sign bits set
    let frame = [0x20u8, 0x20, 0x00, 0x06, 0x06, 0x01, 0x01, 0x00];
    assert_eq!(parse_binary_record(&prev, &frame, &config, &fh), Err(ErrorKind::BadFrame));
}

#[test]
fn rpm_quirk_negates_high_byte() {
    let config = single_engine_config();
    let fh = header_for(&config);
    let mut prev = binary_record::new(&config);
    prev.data.fields[IDX_RPM_HIGHBYTE_RCDT] = 0;
    // mark RPM not-available beforehand so the quirk's clearing shows
    prev.naflags[5] = 0x02;
    // field group 5 present: delta 2 on RPM (signed), delta 3 on the high byte
    let frame = [0x20u8, 0x20, 0x00, 0x06, 0x02, 0x02, 0x03, 179];
    let (consumed, next) = parse_binary_record(&prev, &frame, &config, &fh).unwrap();
    assert_eq!(consumed, 8);
    // RPM went down by 2; the high byte gained 3 and was then negated
    assert_eq!(next.data.fields[IDX_RPM], 0x00F0 - 2);
    assert_eq!(next.data.fields[IDX_RPM_HIGHBYTE_RCDT], -3);
    // the negated high byte is non-zero, so RPM is available again
    assert_eq!(next.naflags[5] & 0x02, 0);
}

#[test]
fn rpm_feature_merges_high_byte() {
    let mut config = single_engine_config();
    // RPM feature bit 26 set
    config.feature_flags_hi = 0x0400;
    let fh = header_for(&config);
    assert!(has_rpm(&fh));
    let mut prev = binary_record::new(&config);
    prev.data.fields[IDX_RPM] = 0x0010;
    // one unsigned delta of 2 on the high byte (group 5, bit 2)
    let frame = [0x20u8, 0x20, 0x00, 0x04, 0x00, 0x02, 186];
    let (_, next) = parse_binary_record(&prev, &frame, &config, &fh).unwrap();
    // the high byte became 2, then merged: rpm += 2 << 8
    assert_eq!(next.data.fields[IDX_RPM], 0x0210);
    assert_eq!(next.data.fields[IDX_RPM_HIGHBYTE_RCDT], 0);
}

#[test]
fn twin_engine_spans() {
    let config = ConfigInfo { model_number: 760, ..single_engine_config() };
    let fh = header_for(&config);
    assert_eq!(num_engines(&config), 2);
    let prev = binary_record::new(&config);
    let frame = [0x01u8, 0x01, 0x00, 0x01, 0x00, 0x10, 237];
    let (_, next) = parse_binary_record(&prev, &frame, &config, &fh).unwrap();
    // engine 0 spans cylinder 0's raised EGT; engine 1's bank is untouched
    assert_eq!(next.dif, [0x10, 0]);
}

#[test]
fn post_calc_is_idempotent() {
    let config = single_engine_config();
    let fh = header_for(&config);
    let prev = binary_record::new(&config);
    let frame = [0x41u8, 0x41, 0x00, 0x01, 0x01, 0x00, 0x00, 0x01, 123];
    let (_, decoded) = parse_binary_record(&prev, &frame, &config, &fh).unwrap();
    let mut again = decoded;
    again.calcstuff(&config, &fh);
    assert_eq!(again, decoded);
}

#[test]
fn wrapping_field_arithmetic() {
    let config = single_engine_config();
    let fh = header_for(&config);
    let mut prev = binary_record::new(&config);
    prev.data.fields[8] = i16::MAX;
    // group 1 present: unsigned delta 1 on the first CHT wraps around
    let frame = [0x02u8, 0x02, 0x00, 0x01, 0x00, 0x01, 250];
    let (_, next) = parse_binary_record(&prev, &frame, &config, &fh).unwrap();
    assert_eq!(next.data.fields[8], i16::MIN);
}

#[test]
fn flight_header_decoding() {
    let buf = [
        0x01u8, 0x02, 0x00, 0x3F, 0x00, 0x00, 0x00, 0x00, 0x00, 0x05, 0x00, 0x00, 0x00, 0x00,
        185,
    ];
    let h = read_flight_header(&buf).unwrap();
    assert_eq!(
        h,
        flightheader {
            flightnumber: 0x0102,
            flags: 0x3F,
            unknown: 0,
            interval_secs: 5,
            datebits: 0,
            timebits: 0,
        }
    );
    assert_eq!(read_flight_header(&buf[..14]), Err(ErrorKind::ShortRead));
    let mut bad = buf;
    bad[14] = 0;
    assert_eq!(read_flight_header(&bad), Err(ErrorKind::BadChecksum));
}

#[test]
fn flat_vector_accessor() {
    let rec = data_record { fields: [7i16; 48] };
    assert_eq!(rec.get(0), 7);
    assert_eq!(rec.get(47), 7);
}

#[test]
fn named_accessors_use_fixed_offsets() {
    let mut fields = [0i16; 48];
    for (i, f) in fields.iter_mut().enumerate() {
        *f = i as i16;
    }
    let rec = data_record { fields };
    assert_eq!(rec.egt(0), 0);
    assert_eq!(rec.egt(5), 5);
    assert_eq!(rec.t1(), 6);
    assert_eq!(rec.t2(), 7);
    assert_eq!(rec.cht(2), 10);
    assert_eq!(rec.cld(), 14);
    assert_eq!(rec.oil(), 15);
    assert_eq!(rec.mark(), 16);
    assert_eq!(rec.unk_3_1(), 17);
    assert_eq!(rec.cdt(), 18);
    assert_eq!(rec.iat(), 19);
    assert_eq!(rec.bat(), 20);
    assert_eq!(rec.oat(), 21);
    assert_eq!(rec.usd(), 22);
    assert_eq!(rec.ff(), 23);
    assert_eq!(rec.regt(0), 24);
    assert_eq!(rec.hp_rt1(), 30);
    assert_eq!(rec.rt2(), 31);
    assert_eq!(rec.rcht(5), 37);
    assert_eq!(rec.rcld(), 38);
    assert_eq!(rec.roil(), 39);
    assert_eq!(rec.map(), 40);
    assert_eq!(rec.rpm(), 41);
    assert_eq!(rec.rpm_highbyte_rcdt(), 42);
    assert_eq!(rec.riat(), 43);
    assert_eq!(rec.unk_6_4(), 44);
    assert_eq!(rec.unk_6_5(), 45);
    assert_eq!(rec.rusd(), 46);
    assert_eq!(rec.rff(), 47);
}

#[test]
fn stream_of_frames() {
    let config = single_engine_config();
    let fh = header_for(&config);
    let init = binary_record::new(&config);
    // one delta frame, then a repeat frame
    let stream = [0x01u8, 0x01, 0x00, 0x01, 0x00, 0x10, 237, 0x00, 0x00, 0x01];
    let samples = decode_stream(&init, &stream, &config, &fh).unwrap();
    assert_eq!(samples.len(), 2);
    assert_eq!(samples[0].data.fields[0], 0x0100);
    assert_eq!(samples[1], samples[0]);

    let empty = decode_stream(&init, &[], &config, &fh).unwrap();
    assert!(empty.is_empty());

    // a bad frame after a good one aborts the flight
    let broken = [0x01u8, 0x01, 0x00, 0x01, 0x00, 0x10, 237, 0x01, 0x02, 0x00];
    assert_eq!(decode_stream(&init, &broken, &config, &fh), Err(ErrorKind::BadFrame));
}

#[test]
fn quirk_overrides_zero_rpm_delta() {
    let config = single_engine_config();
    let fh = header_for(&config);
    let mut prev = binary_record::new(&config);
    prev.data.fields[IDX_RPM_HIGHBYTE_RCDT] = 0;
    // a zero RPM delta marks RPM not-available, but the signed-RPM quirk
    // then leaves a non-zero negated high byte and makes RPM available
    let frame = [0x20u8, 0x20, 0x00, 0x06, 0x02, 0x00, 0x03, 181];
    let (_, next) = parse_binary_record(&prev, &frame, &config, &fh).unwrap();
    assert_eq!(next.data.fields[IDX_RPM], 0x00F0);
    assert_eq!(next.data.fields[IDX_RPM_HIGHBYTE_RCDT], -3);
    assert_eq!(next.naflags[5] & 0x02, 0);
}

#[test]
fn reduced_cylinder_count_limits_span() {
    // four EGT sensors: a delta on cylinder 5 is outside the span
    let config = ConfigInfo { feature_flags_lo: 0x000F, ..single_engine_config() };
    let fh = header_for(&config);
    assert_eq!(num_cyls(fh.flags), 4);
    let prev = binary_record::new(&config);
    let frame = [0x01u8, 0x01, 0x00, 0x20, 0x00, 0x10, 206];
    let (_, next) = parse_binary_record(&prev, &frame, &config, &fh).unwrap();
    assert_eq!(next.data.fields[5], 0x0100);
    assert_eq!(next.dif, [0, 0]);
}
