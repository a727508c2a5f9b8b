use comtrade::config::{
    deserialize_comtrade_config, FileTypeField, ScalingIdentifier,
};
use comtrade::timescale::TimestampFactor;
use comtrade::ComtradeError;
use comtrade::ErrorKind;

fn join(lines: &[&str]) -> String {
    let mut s = String::new();
    for l in lines {
        s.push_str(l);
        s.push_str("\r\n");
    }
    s
}

const ANALOG_1: &str = "1,Ia,A,Line1,A,1.0,0.0,0.0,-32768,32767,1.0,1.0,P";
const ANALOG_2: &str = "2,Ib,B,Line1,A,1.0,0.0,0.0,-32768,32767,1.0,1.0,s";
const ANALOG_3: &str = "3,Ic,C,Line1,A,1.0,0.0,0.0,-32768,32767,1.0,1.0,S";
const STATUS_1: &str = "1,Brk1,A,Line1,0";
const STATUS_2: &str = "2,Brk2,B,Line1,1";

fn full_config() -> Vec<&'static str> {
    vec![
        "STATION_A,DEV1,1999",
        "5,3A,2D",
        ANALOG_1,
        ANALOG_2,
        ANALOG_3,
        STATUS_1,
        STATUS_2,
        "60.0",
        "1",
        "4800.0,96",
        "01/01/2000,00:00:00.000000",
        "01/01/2000,00:00:00.500000",
        "ascii",
        "1.0",
    ]
}

#[test]
fn station_and_counts() {
    let cfg = deserialize_comtrade_config(&join(&full_config())).unwrap();
    assert_eq!(cfg.station.station_name, "STATION_A");
    assert_eq!(cfg.station.recording_device_id, "DEV1");
    assert_eq!(cfg.station.revision_year, 1999);
    assert_eq!(cfg.station.total_channel_count, 5);
    assert_eq!(cfg.station.analog_channel_count, 3);
    assert_eq!(cfg.station.status_channel_count, 2);
}

#[test]
fn revision_year_defaults_when_unparsable() {
    let mut lines = full_config();
    lines[0] = "STATION_A,DEV1,not_a_year";
    let cfg = deserialize_comtrade_config(&join(&lines)).unwrap();
    assert_eq!(cfg.station.revision_year, 1991);
}

#[test]
fn analog_descriptor_fields() {
    let cfg = deserialize_comtrade_config(&join(&full_config())).unwrap();
    assert_eq!(cfg.analog_channels.len(), 3);
    let a = &cfg.analog_channels[0];
    assert_eq!(a.index, 1);
    assert_eq!(a.id, "Ia");
    assert_eq!(a.phase, "A");
    assert_eq!(a.monitored_component, "Line1");
    assert_eq!(a.units, "A");
    assert_eq!(a.multiplier, "1.0");
    assert_eq!(a.min, -32768);
    assert_eq!(a.max, 32767);
    assert_eq!(a.scaling_identifier, ScalingIdentifier::Primary);
    assert_eq!(cfg.analog_channels[1].scaling_identifier, ScalingIdentifier::Secondary);
    assert_eq!(cfg.analog_channels[2].scaling_identifier, ScalingIdentifier::Secondary);
}

#[test]
fn status_descriptor_fields() {
    let cfg = deserialize_comtrade_config(&join(&full_config())).unwrap();
    assert_eq!(cfg.status_channels.len(), 2);
    assert_eq!(cfg.status_channels[0].id, "Brk1");
    assert!(!cfg.status_channels[0].normal_state);
    assert!(cfg.status_channels[1].normal_state);
}

#[test]
fn sample_rate_block_and_times() {
    let cfg = deserialize_comtrade_config(&join(&full_config())).unwrap();
    assert_eq!(cfg.line_frequency.as_deref(), Some("60.0"));
    assert_eq!(cfg.sample_rates.declared_count, 1);
    assert_eq!(cfg.sample_rates.entries.len(), 1);
    assert_eq!(cfg.sample_rates.entries[0].rate, "4800.0");
    assert_eq!(cfg.sample_rates.entries[0].last_sample_number, 96);
    // the reference epoch is the first moment of 2000
    assert_eq!(cfg.first_data_time, Some(0));
    assert_eq!(cfg.event_time, Some(500_000_000));
    assert_eq!(cfg.file_type, FileTypeField::Ascii);
}

#[test]
fn zero_declared_rates_still_reads_one_line() {
    let mut lines = full_config();
    lines[8] = "0";
    let cfg = deserialize_comtrade_config(&join(&lines)).unwrap();
    assert_eq!(cfg.sample_rates.declared_count, 0);
    assert_eq!(cfg.sample_rates.entries.len(), 1);
}

#[test]
fn timestamp_factor_held_exactly() {
    let cfg = deserialize_comtrade_config(&join(&full_config())).unwrap();
    // 1.0 is held as 10 * 10^-1
    assert_eq!(
        cfg.timestamp_multiplication_factor,
        TimestampFactor::Finite { mantissa: 10, exp10: -1 }
    );
}

#[test]
fn wrong_length_time_line_is_null() {
    let mut lines = full_config();
    lines[10] = "not a timestamp";
    let cfg = deserialize_comtrade_config(&join(&lines)).unwrap();
    assert_eq!(cfg.first_data_time, None);
}

#[test]
fn right_length_bad_time_line_is_error() {
    let mut lines = full_config();
    lines[10] = "xx/01/2000,00:00:00.000000";
    assert_eq!(
        deserialize_comtrade_config(&join(&lines)),
        Err(ComtradeError::InvalidFirstDataTime)
    );
    let mut lines2 = full_config();
    lines2[11] = "99/99/2000,00:00:00.000000";
    assert_eq!(
        deserialize_comtrade_config(&join(&lines2)),
        Err(ComtradeError::InvalidEventTime)
    );
}

#[test]
fn file_type_is_case_insensitive() {
    for ft in ["ASCII", "Ascii", "ascii"] {
        let mut lines = full_config();
        lines[12] = ft;
        let cfg = deserialize_comtrade_config(&join(&lines)).unwrap();
        assert_eq!(cfg.file_type, FileTypeField::Ascii);
    }
    for ft in ["BINARY", "Binary", "binary"] {
        let mut lines = full_config();
        lines[12] = ft;
        let cfg = deserialize_comtrade_config(&join(&lines)).unwrap();
        assert_eq!(cfg.file_type, FileTypeField::Binary);
    }
}

#[test]
fn unparsable_line_frequency_is_null() {
    let mut lines = full_config();
    lines[7] = "sixty";
    let cfg = deserialize_comtrade_config(&join(&lines)).unwrap();
    assert_eq!(cfg.line_frequency, None);
}

#[test]
fn trailing_line_is_rejected() {
    let mut lines = full_config();
    lines.push("extra");
    let e = deserialize_comtrade_config(&join(&lines)).unwrap_err();
    assert_eq!(e, ComtradeError::TrailingData);
    assert_eq!(e.kind(), ErrorKind::TrailingData);
}

#[test]
fn config_error_variants() {
    // station line with too few fields
    let mut l = full_config();
    l[0] = "STATION_A,DEV1";
    assert_eq!(deserialize_comtrade_config(&join(&l)), Err(ComtradeError::StationFieldCount));

    let mut l = full_config();
    l[1] = "5,3A";
    assert_eq!(
        deserialize_comtrade_config(&join(&l)),
        Err(ComtradeError::ChannelCountFieldCount)
    );

    let mut l = full_config();
    l[1] = "five,3A,2D";
    assert_eq!(
        deserialize_comtrade_config(&join(&l)),
        Err(ComtradeError::InvalidTotalChannelCount)
    );

    let mut l = full_config();
    l[1] = "5,xA,2D";
    assert_eq!(
        deserialize_comtrade_config(&join(&l)),
        Err(ComtradeError::InvalidAnalogChannelCount)
    );

    let mut l = full_config();
    l[1] = "5,3A,xD";
    assert_eq!(
        deserialize_comtrade_config(&join(&l)),
        Err(ComtradeError::InvalidStatusChannelCount)
    );

    let mut l = full_config();
    l[2] = "1,Ia,A,Line1,A,1.0,0.0,0.0,-32768,32767,1.0,1.0";
    assert_eq!(deserialize_comtrade_config(&join(&l)), Err(ComtradeError::AnalogFieldCount));

    let mut l = full_config();
    l[2] = "x,Ia,A,Line1,A,1.0,0.0,0.0,-32768,32767,1.0,1.0,P";
    assert_eq!(deserialize_comtrade_config(&join(&l)), Err(ComtradeError::InvalidAnalogIndex));

    let mut l = full_config();
    l[2] = "1,Ia,A,Line1,A,x,0.0,0.0,-32768,32767,1.0,1.0,P";
    assert_eq!(deserialize_comtrade_config(&join(&l)), Err(ComtradeError::InvalidMultiplier));

    let mut l = full_config();
    l[2] = "1,Ia,A,Line1,A,1.0,x,0.0,-32768,32767,1.0,1.0,P";
    assert_eq!(deserialize_comtrade_config(&join(&l)), Err(ComtradeError::InvalidOffsetAdder));

    let mut l = full_config();
    l[2] = "1,Ia,A,Line1,A,1.0,0.0,x,-32768,32767,1.0,1.0,P";
    assert_eq!(deserialize_comtrade_config(&join(&l)), Err(ComtradeError::InvalidSkew));

    let mut l = full_config();
    l[2] = "1,Ia,A,Line1,A,1.0,0.0,0.0,x,32767,1.0,1.0,P";
    assert_eq!(deserialize_comtrade_config(&join(&l)), Err(ComtradeError::InvalidMinimum));

    let mut l = full_config();
    l[2] = "1,Ia,A,Line1,A,1.0,0.0,0.0,-32768,x,1.0,1.0,P";
    assert_eq!(deserialize_comtrade_config(&join(&l)), Err(ComtradeError::InvalidMaximum));

    let mut l = full_config();
    l[2] = "1,Ia,A,Line1,A,1.0,0.0,0.0,-32768,32767,x,1.0,P";
    assert_eq!(
        deserialize_comtrade_config(&join(&l)),
        Err(ComtradeError::InvalidPrimaryFactor)
    );

    let mut l = full_config();
    l[2] = "1,Ia,A,Line1,A,1.0,0.0,0.0,-32768,32767,1.0,x,P";
    assert_eq!(
        deserialize_comtrade_config(&join(&l)),
        Err(ComtradeError::InvalidSecondaryFactor)
    );

    let mut l = full_config();
    l[2] = "1,Ia,A,Line1,A,1.0,0.0,0.0,-32768,32767,1.0,1.0,q";
    let e = deserialize_comtrade_config(&join(&l)).unwrap_err();
    assert_eq!(e, ComtradeError::InvalidScalingIdentifier);
    assert_eq!(e.kind(), ErrorKind::InvalidField);

    let mut l = full_config();
    l[5] = "1,Brk1,A,Line1";
    assert_eq!(deserialize_comtrade_config(&join(&l)), Err(ComtradeError::StatusFieldCount));

    let mut l = full_config();
    l[5] = "x,Brk1,A,Line1,0";
    assert_eq!(deserialize_comtrade_config(&join(&l)), Err(ComtradeError::InvalidStatusIndex));

    let mut l = full_config();
    l[5] = "1,Brk1,A,Line1,2";
    assert_eq!(deserialize_comtrade_config(&join(&l)), Err(ComtradeError::InvalidChannelState));

    let mut l = full_config();
    l[8] = "x";
    assert_eq!(
        deserialize_comtrade_config(&join(&l)),
        Err(ComtradeError::InvalidSampleRateCount)
    );

    let mut l = full_config();
    l[9] = "4800.0";
    assert_eq!(
        deserialize_comtrade_config(&join(&l)),
        Err(ComtradeError::SampleRateFieldCount)
    );

    let mut l = full_config();
    l[9] = "x,96";
    assert_eq!(deserialize_comtrade_config(&join(&l)), Err(ComtradeError::InvalidSampleRate));

    let mut l = full_config();
    l[9] = "4800.0,x";
    assert_eq!(
        deserialize_comtrade_config(&join(&l)),
        Err(ComtradeError::InvalidLastSampleNumber)
    );

    let mut l = full_config();
    l[12] = "neither";
    assert_eq!(deserialize_comtrade_config(&join(&l)), Err(ComtradeError::InvalidFileType));

    let mut l = full_config();
    l[13] = "x";
    assert_eq!(
        deserialize_comtrade_config(&join(&l)),
        Err(ComtradeError::InvalidTimestampFactor)
    );

    // a declared channel count larger than the lines available
    let mut l = full_config();
    l[1] = "5,30A,2D";
    let e = deserialize_comtrade_config(&join(&l)).unwrap_err();
    assert_eq!(e, ComtradeError::EarlyEof);
    assert_eq!(e.kind(), ErrorKind::EarlyEof);

    // empty input
    assert_eq!(deserialize_comtrade_config(""), Err(ComtradeError::EarlyEof));
}

#[test]
fn parse_same_input_twice_gives_identical_records() {
    let text = join(&full_config());
    let a = deserialize_comtrade_config(&text).unwrap();
    let b = deserialize_comtrade_config(&text).unwrap();
    assert_eq!(a.station.station_name, b.station.station_name);
    assert_eq!(a.analog_channels.len(), b.analog_channels.len());
    assert_eq!(a.timestamp_multiplication_factor, b.timestamp_multiplication_factor);
    assert_eq!(a.first_data_time, b.first_data_time);
}

#[test]
fn factor_forms_are_held_exactly() {
    let cases = [
        ("2", 2i64, 0i32),
        ("-0.5", -5, -1),
        ("2e3", 2, 3),
        ("+1.25e-2", 125, -4),
        ("0.000001", 1, -6),
    ];
    for (text, mantissa, exp10) in cases {
        let mut lines = full_config();
        lines[13] = text;
        let cfg = deserialize_comtrade_config(&join(&lines)).unwrap();
        assert_eq!(
            cfg.timestamp_multiplication_factor,
            TimestampFactor::Finite { mantissa, exp10 },
            "factor {}",
            text
        );
    }
}

#[test]
fn factor_machine_limits_are_errors() {
    // digits beyond what the exact decimal form holds
    let mut lines = full_config();
    lines[13] = "12345678901234567890";
    assert_eq!(
        deserialize_comtrade_config(&join(&lines)),
        Err(ComtradeError::InvalidTimestampFactor)
    );
    // a power of ten beyond the exact form's range
    let mut lines2 = full_config();
    lines2[13] = "1e99999999999";
    assert_eq!(
        deserialize_comtrade_config(&join(&lines2)),
        Err(ComtradeError::InvalidTimestampFactor)
    );
}

#[test]
fn special_factor_words_are_accepted() {
    let cases = [
        ("inf", TimestampFactor::Infinite { negative: false }),
        ("INF", TimestampFactor::Infinite { negative: false }),
        ("+Infinity", TimestampFactor::Infinite { negative: false }),
        ("-infinity", TimestampFactor::Infinite { negative: true }),
        ("-inf", TimestampFactor::Infinite { negative: true }),
        ("nan", TimestampFactor::NotANumber),
        ("-NaN", TimestampFactor::NotANumber),
    ];
    for (text, expected) in cases {
        let mut lines = full_config();
        lines[13] = text;
        let cfg = deserialize_comtrade_config(&join(&lines)).unwrap();
        assert_eq!(cfg.timestamp_multiplication_factor, expected, "factor {}", text);
    }
}

#[test]
fn special_float_words_pass_the_number_grammar() {
    // the calibration fields carry any floating-point text verbatim
    let mut lines = full_config();
    lines[2] = "1,Ia,A,Line1,A,inf,-INF,NaN,-32768,32767,1.0,1.0,P";
    let cfg = deserialize_comtrade_config(&join(&lines)).unwrap();
    assert_eq!(cfg.analog_channels[0].multiplier, "inf");
    assert_eq!(cfg.analog_channels[0].offset_adder, "-INF");
    assert_eq!(cfg.analog_channels[0].skew, "NaN");
    // the line frequency does too
    let mut lines2 = full_config();
    lines2[7] = "Infinity";
    let cfg2 = deserialize_comtrade_config(&join(&lines2)).unwrap();
    assert_eq!(cfg2.line_frequency.as_deref(), Some("Infinity"));
}

#[test]
fn channel_count_marker_is_stripped_blindly() {
    // the last character of each partial count is stripped, whatever it is
    let mut lines = full_config();
    lines[1] = "5,3X,2Y";
    let cfg = deserialize_comtrade_config(&join(&lines)).unwrap();
    assert_eq!(cfg.station.analog_channel_count, 3);
    assert_eq!(cfg.station.status_channel_count, 2);
}
