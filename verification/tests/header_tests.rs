use edmlog::headers::config_info_parser;
use edmlog::headers::configured_limits_parser;
use edmlog::headers::flight_info_parser;
use edmlog::headers::fuel_flow_parser;
use edmlog::headers::header_record_parser;
use edmlog::headers::last_header_record_parser;
use edmlog::headers::parse_record;
use edmlog::headers::tail_number_parser;
use edmlog::headers::timestamp_parser;
use edmlog::headers::ConfigInfo;
use edmlog::headers::ConfiguredLimits;
use edmlog::headers::FlightInfo;
use edmlog::headers::FuelFlowLimits;
use edmlog::headers::HeaderRecord;
use edmlog::headers::LastHeaderRecord;
use edmlog::headers::Timestamp;
use edmlog::bits::calc_new_checksum;
use edmlog::bits::xor8_slice;
use edmlog::ErrorKind;

#[test]
fn test() {
    assert_eq!(tail_number_parser("N51SW__"), Ok(("__", "N51SW")));
    assert_eq!(tail_number_parser("__N51SW"), Err(ErrorKind::BadEnvelope));

    let config_limit_example = ConfiguredLimits {
        volts_hi_times_ten: 155,
        volts_lo_times_ten: 130,
        dif: 400,
        cht: 415,
        cld: 60,
        tit: 1650,
        oil_hi: 220,
        oil_lo: 75,
    };
    assert_eq!(
        configured_limits_parser("155,130,400,415, 60,1650,220, 75"),
        Ok(("", config_limit_example))
    );
    assert_eq!(
        parse_record("$A,155,130,400,415, 60,1650,220, 75*70"),
        Ok(("", HeaderRecord::A(config_limit_example)))
    );

    let fuel_flow_example = FuelFlowLimits {
        empty: 0,
        full: 49,
        warning: 22,
        k_factor: 3183,
        k_factor2: 3183,
    };
    assert_eq!(fuel_flow_parser("0, 49, 22,3183,3183"), Ok(("", fuel_flow_example)));
    assert_eq!(
        parse_record("$F,0, 49, 22,3183,3183*57"),
        Ok(("", HeaderRecord::F(fuel_flow_example)))
    );

    let timestamp_example = Timestamp {
        month: 5,
        day: 13,
        year: 5,
        hour: 23,
        minute: 2,
        unknown: 2222,
    };
    assert_eq!(timestamp_parser("5,13, 5,23, 2, 2222"), Ok(("", timestamp_example)));
    assert_eq!(
        parse_record("$T, 5,13, 5,23, 2, 2222*65"),
        Ok(("", HeaderRecord::T(timestamp_example)))
    );

    let config_info_example = ConfigInfo {
        model_number: 700,
        feature_flags_lo: 63741,
        feature_flags_hi: 6193,
        unknown_flags: 1552,
        firmware_version: 292,
    };
    assert_eq!(config_info_parser("700,63741, 6193, 1552, 292"), Ok(("", config_info_example)));
    assert_eq!(
        parse_record("$C, 700,63741, 6193, 1552, 292*58"),
        Ok(("", HeaderRecord::C(config_info_example)))
    );

    let flight_info_example = FlightInfo {
        flight_number: 227,
        length: 3979,
    };
    assert_eq!(flight_info_parser("227, 3979"), Ok(("", flight_info_example)));
    assert_eq!(parse_record("$D,  227, 3979*57"), Ok(("", HeaderRecord::D(flight_info_example))));

    let last_header_record_example = LastHeaderRecord { unknown: 49 };
    assert_eq!(last_header_record_parser("49"), Ok(("", last_header_record_example)));
    assert_eq!(parse_record("$L, 49*4D"), Ok(("", HeaderRecord::L(last_header_record_example))));
}

#[test]
fn tail_number_record() {
    let r = parse_record("$U,N51SW__*37");
    assert_eq!(r, Ok(("__", HeaderRecord::U(String::from("N51SW")))));
}

#[test]
fn envelope_parser_yields_parts() {
    let r = header_record_parser("$U,N51SW__*37");
    assert_eq!(r, Ok(("", ('U', "N51SW__"))));
}

#[test]
fn envelope_shape_errors() {
    assert_eq!(parse_record(""), Err(ErrorKind::BadEnvelope));
    assert_eq!(parse_record("L, 49*4D"), Err(ErrorKind::BadEnvelope));
    assert_eq!(parse_record("$L, 49"), Err(ErrorKind::BadEnvelope));
    assert_eq!(parse_record("$L, 49*4"), Err(ErrorKind::BadEnvelope));
    assert_eq!(parse_record("$L, 49*4G"), Err(ErrorKind::BadEnvelope));
    assert_eq!(parse_record("$L: 49*51"), Err(ErrorKind::BadEnvelope));
    // trailing characters after the checksum digits
    assert_eq!(parse_record("$L, 49*4Dx"), Err(ErrorKind::BadEnvelope));
}

#[test]
fn envelope_checksum_mismatch() {
    assert_eq!(parse_record("$L, 49*4E"), Err(ErrorKind::BadChecksum));
    assert_eq!(parse_record("$L, 49*00"), Err(ErrorKind::BadChecksum));
}

#[test]
fn unknown_record_letter() {
    assert_eq!(parse_record("$X,1*45"), Err(ErrorKind::UnknownRecord));
}

#[test]
fn bad_numeric_payload() {
    // a non-numeric field in a numeric record
    assert_eq!(parse_record("$L, x*38"), Err(ErrorKind::BadNumber));
    // too few fields for a D record
    assert_eq!(flight_info_parser("227"), Err(ErrorKind::BadNumber));
    // a field beyond 16 bits
    assert_eq!(last_header_record_parser("65536"), Err(ErrorKind::BadNumber));
    assert_eq!(last_header_record_parser("65535"), Ok(("", LastHeaderRecord { unknown: 65535 })));
    // trailing junk after a field
    assert_eq!(last_header_record_parser("49 x"), Err(ErrorKind::BadNumber));
}

#[test]
fn xor_checksum_concrete() {
    assert_eq!(xor8_slice(b"L, 49"), 0x4D);
    assert_eq!(xor8_slice(b""), 0);
    assert_eq!(xor8_slice(&[0xAA, 0x55]), 0xFF);
}

#[test]
fn additive_checksum_cancels_sum() {
    let data: &[u8] = &[0x01, 0x02, 0xF0, 0x3B, 0x80];
    let ck = calc_new_checksum(data);
    let total: u32 = data.iter().map(|b| *b as u32).sum::<u32>() + ck as u32;
    assert_eq!(total % 256, 0);
    assert_eq!(calc_new_checksum(&[]), 0);
    assert_eq!(calc_new_checksum(&[1, 2, 3]), 250);
}
