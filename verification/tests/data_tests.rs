use comtrade::data::{
    deserialize_comtrade_data, deserialize_comtrade_data_ascii, deserialize_comtrade_data_binary,
    DataInput, DataSchema,
};
use comtrade::timescale::{scale_timestamp, TimestampFactor};
use comtrade::ComtradeError;

fn schema(na: i32, ns: i32, critical: bool) -> DataSchema {
    DataSchema {
        analog_channel_count: na,
        status_channel_count: ns,
        critical_timestamp: critical,
        first_data_time: 0,
        timestamp_multiplication_factor: TimestampFactor::Finite { mantissa: 10, exp10: -1 },
    }
}

#[test]
fn ascii_line_with_sentinel_and_statuses() {
    let records =
        deserialize_comtrade_data_ascii("10,5000,99999,120,0,1\r\n", &schema(2, 2, false))
            .unwrap();
    assert_eq!(records.len(), 1);
    let r = &records[0];
    assert_eq!(r.sample_number, 10);
    // 5000 microseconds, factor 1.0: 5_000_000 nanoseconds
    assert_eq!(r.timestamp, Some(5_000_000));
    assert_eq!(r.analog_values, vec![None, Some(120)]);
    assert_eq!(r.status_values, vec![false, true]);
}

#[test]
fn ascii_two_records() {
    let records = deserialize_comtrade_data_ascii(
        "1,0,5,0,1\r\n2,1000,99999,1,0\r\n",
        &schema(1, 2, false),
    )
    .unwrap();
    assert_eq!(records.len(), 2);
    assert_eq!(records[0].analog_values, vec![Some(5)]);
    assert_eq!(records[1].timestamp, Some(1_000_000));
    assert_eq!(records[1].analog_values, vec![None]);
}

#[test]
fn ascii_timestamp_degrades_or_aborts() {
    let relaxed =
        deserialize_comtrade_data_ascii("1,bad,5,0,1\r\n", &schema(1, 2, false)).unwrap();
    assert_eq!(relaxed[0].timestamp, None);
    assert_eq!(
        deserialize_comtrade_data_ascii("1,bad,5,0,1\r\n", &schema(1, 2, true)),
        Err(ComtradeError::InvalidTimestamp)
    );
}

#[test]
fn ascii_error_variants() {
    assert_eq!(
        deserialize_comtrade_data_ascii("1,0,5\r\n", &schema(1, 2, false)),
        Err(ComtradeError::DataFieldCount)
    );
    assert_eq!(
        deserialize_comtrade_data_ascii("x,0,5,0,1\r\n", &schema(1, 2, false)),
        Err(ComtradeError::InvalidSampleNumber)
    );
    assert_eq!(
        deserialize_comtrade_data_ascii("1,0,x,0,1\r\n", &schema(1, 2, false)),
        Err(ComtradeError::InvalidAnalogValue)
    );
    assert_eq!(
        deserialize_comtrade_data_ascii("1,0,5,0,2\r\n", &schema(1, 2, false)),
        Err(ComtradeError::InvalidStatusValue)
    );
    // per the grammar, a status field is the literal digit, nothing else
    assert_eq!(
        deserialize_comtrade_data_ascii("1,0,5,0,01\r\n", &schema(1, 2, false)),
        Err(ComtradeError::InvalidStatusValue)
    );
}

#[test]
fn binary_analog_sentinel_and_value() {
    // one record, two analog channels, no status channels:
    // sample number 1, timestamp 0, analog 0x8000 (null) then 100
    let bytes: Vec<u8> = vec![
        1, 0, 0, 0, // sample number
        0, 0, 0, 0, // timestamp offset
        0x00, 0x80, // analog null sentinel
        0x64, 0x00, // analog 100
    ];
    let records = deserialize_comtrade_data_binary(&bytes, &schema(2, 0, false)).unwrap();
    assert_eq!(records.len(), 1);
    assert_eq!(records[0].sample_number, 1);
    assert_eq!(records[0].timestamp, Some(0));
    assert_eq!(records[0].analog_values, vec![None, Some(100)]);
    assert_eq!(records[0].status_values.len(), 0);
}

#[test]
fn binary_negative_analog_value() {
    let bytes: Vec<u8> = vec![
        1, 0, 0, 0, 0, 0, 0, 0, //
        0xFF, 0xFF, // analog -1
    ];
    let records = deserialize_comtrade_data_binary(&bytes, &schema(1, 0, false)).unwrap();
    assert_eq!(records[0].analog_values, vec![Some(-1)]);
}

#[test]
fn binary_null_timestamp() {
    let bytes: Vec<u8> = vec![
        2, 0, 0, 0, //
        0xFF, 0xFF, 0xFF, 0xFF, // null timestamp
        0x01, 0x00, //
    ];
    let records = deserialize_comtrade_data_binary(&bytes, &schema(1, 0, false)).unwrap();
    assert_eq!(records[0].timestamp, None);
    assert_eq!(
        deserialize_comtrade_data_binary(&bytes, &schema(1, 0, true)),
        Err(ComtradeError::InvalidTimestamp)
    );
}

#[test]
fn binary_eighteen_status_channels() {
    // 18 channels: one complete 16-bit group, then a trailing group of
    // which only the low two bits of the first byte are meaningful.
    // Group 1: 0x03A5 -> bits 0,2,5,7 (low byte 0xA5), 8,9 (low bits of 0x03).
    // Trailing group: 0x0002 -> channel 16 false, channel 17 true.
    let bytes: Vec<u8> = vec![
        7, 0, 0, 0, // sample number
        0, 0, 0, 0, // timestamp
        0xA5, 0x03, // first group
        0x02, 0xFC, // trailing group; high bits are padding
    ];
    let records = deserialize_comtrade_data_binary(&bytes, &schema(0, 18, false)).unwrap();
    assert_eq!(records.len(), 1);
    let s = &records[0].status_values;
    assert_eq!(s.len(), 18);
    let expected = [
        true, false, true, false, false, true, false, true, // 0xA5
        true, true, false, false, false, false, false, false, // 0x03
        false, true, // low two bits of 0x02
    ];
    for (i, e) in expected.iter().enumerate() {
        assert_eq!(s[i], *e, "channel {}", i);
    }
}

#[test]
fn binary_sixteen_bools_round_trip() {
    // pack sixteen booleans by the rule (lowest channel in the least
    // significant bit of the first byte), decode, compare
    let bits = [
        true, false, false, true, true, true, false, false, //
        false, true, false, true, false, false, true, true,
    ];
    let mut b0: u8 = 0;
    let mut b1: u8 = 0;
    for i in 0..8 {
        if bits[i] {
            b0 |= 1 << i;
        }
        if bits[8 + i] {
            b1 |= 1 << i;
        }
    }
    let bytes: Vec<u8> = vec![1, 0, 0, 0, 0, 0, 0, 0, b0, b1];
    let records = deserialize_comtrade_data_binary(&bytes, &schema(0, 16, false)).unwrap();
    assert_eq!(records[0].status_values, bits.to_vec());
}

#[test]
fn binary_length_must_be_whole_records() {
    // record size is 12 for 2 analog and 0 status channels
    let bytes: Vec<u8> = vec![0; 13];
    assert_eq!(
        deserialize_comtrade_data_binary(&bytes, &schema(2, 0, false)),
        Err(ComtradeError::DataFieldCount)
    );
    // an empty buffer is zero records
    let empty: Vec<u8> = Vec::new();
    assert_eq!(
        deserialize_comtrade_data_binary(&empty, &schema(2, 0, false)).unwrap().len(),
        0
    );
}

#[test]
fn binary_two_records() {
    let bytes: Vec<u8> = vec![
        1, 0, 0, 0, 10, 0, 0, 0, 0x05, 0x00, //
        2, 0, 0, 0, 20, 0, 0, 0, 0x00, 0x80,
    ];
    let records = deserialize_comtrade_data_binary(&bytes, &schema(1, 0, false)).unwrap();
    assert_eq!(records.len(), 2);
    assert_eq!(records[0].sample_number, 1);
    assert_eq!(records[0].timestamp, Some(10_000));
    assert_eq!(records[1].analog_values, vec![None]);
}

#[test]
fn dispatcher_selects_encoding() {
    let ascii = DataInput::Ascii(String::from("1,0,5,0,1\r\n"));
    let records = deserialize_comtrade_data(&ascii, &schema(1, 2, false)).unwrap();
    assert_eq!(records[0].analog_values, vec![Some(5)]);
    let binary = DataInput::Binary(vec![1, 0, 0, 0, 0, 0, 0, 0, 0x05, 0x00]);
    let records = deserialize_comtrade_data(&binary, &schema(1, 0, false)).unwrap();
    assert_eq!(records[0].analog_values, vec![Some(5)]);
}

#[test]
fn scaling_is_exact_decimal() {
    // factor 2.5 on 1000 microseconds from a base of 7
    let f = TimestampFactor::Finite { mantissa: 25, exp10: -1 };
    assert_eq!(scale_timestamp(7, &f, 1000), 7 + 2_500_000);
    // the scaled offset rounds to the nearest nanosecond
    let g = TimestampFactor::Finite { mantissa: 19, exp10: -4 };
    assert_eq!(scale_timestamp(0, &g, 1), 2); // 1.9 ns rounds up
    assert_eq!(scale_timestamp(0, &g, -1), -2);
    let h = TimestampFactor::Finite { mantissa: 1, exp10: -9 };
    assert_eq!(scale_timestamp(0, &h, 1), 0); // 0.000001 ns rounds away
    assert_eq!(scale_timestamp(0, &h, 3_000_000), 3); // 3e9 ns * 1e-9
    assert_eq!(scale_timestamp(0, &h, -3_999_999), -4); // -3.999999 rounds
    // halves go away from zero
    let half = TimestampFactor::Finite { mantissa: 15, exp10: -4 };
    assert_eq!(scale_timestamp(0, &half, 1), 2); // 1.5 ns
    assert_eq!(scale_timestamp(0, &half, -1), -2);
    // a huge factor clamps instead of wrapping
    let big = TimestampFactor::Finite { mantissa: i64::MAX, exp10: 10 };
    assert_eq!(scale_timestamp(0, &big, 1_000_000), i64::MAX);
    assert_eq!(scale_timestamp(0, &big, -1_000_000), i64::MIN);
}

#[test]
fn special_factors_scale_like_their_words() {
    // an infinite factor drives every nonzero offset to a bound
    let inf = TimestampFactor::Infinite { negative: false };
    assert_eq!(scale_timestamp(5, &inf, 1), i64::MAX);
    assert_eq!(scale_timestamp(5, &inf, -1), i64::MIN);
    assert_eq!(scale_timestamp(5, &inf, 0), 5);
    let ninf = TimestampFactor::Infinite { negative: true };
    assert_eq!(scale_timestamp(5, &ninf, 1), i64::MIN);
    assert_eq!(scale_timestamp(5, &ninf, -1), i64::MAX);
    // a factor that is no number contributes nothing
    let nan = TimestampFactor::NotANumber;
    assert_eq!(scale_timestamp(5, &nan, 123456), 5);
}
