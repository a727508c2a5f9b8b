//! The data file: one record per sample, decoded either from
//! comma-separated text lines or from a packed binary layout replicated
//! back-to-back with no delimiters.

use vstd::prelude::*;

use crate::text::{
    chars_to_string, spec_parse_i32, spec_parse_i64, spec_split_char, spec_split_crlf,
    parse_i32_range, parse_i64_range, split_char, split_crlf, to_chars,
};
use crate::timescale::{scale_timestamp, spec_record_timestamp, TimestampFactor};
use crate::ComtradeError;

verus! {

// ---------------------------------------------------------------------
// The schema, the records and their views
// ---------------------------------------------------------------------

/// What the data decoder must know about the recording; normally taken
/// from a decoded configuration, but supplied independently so that the
/// decoder does not depend on the configuration parser.
pub struct DataSchema {
    pub analog_channel_count: i32,
    pub status_channel_count: i32,
    /// When set, an unreadable per-record timestamp aborts the decode;
    /// otherwise it degrades to nothing.
    pub critical_timestamp: bool,
    /// Nanoseconds; added to every scaled offset.
    pub first_data_time: i64,
    pub timestamp_multiplication_factor: TimestampFactor,
}

/// One decoded sample: its number, its timestamp, one nullable value
/// per analog channel and one boolean per status channel, in descriptor
/// order.
#[derive(Debug, PartialEq, Eq)]
pub struct DataRecord {
    pub sample_number: i32,
    pub timestamp: Option<i64>,
    pub analog_values: Vec<Option<i32>>,
    pub status_values: Vec<bool>,
}

pub struct DataRecordView {
    pub sample_number: int,
    pub timestamp: Option<i64>,
    pub analog_values: Seq<Option<i32>>,
    pub status_values: Seq<bool>,
}

impl View for DataRecord {
    type V = DataRecordView;

    open spec fn view(&self) -> DataRecordView {
        DataRecordView {
            sample_number: self.sample_number as int,
            timestamp: self.timestamp,
            analog_values: self.analog_values@,
            status_values: self.status_values@,
        }
    }
}

impl DeepView for DataRecord {
    type V = DataRecordView;

    open spec fn deep_view(&self) -> DataRecordView {
        self.view()
    }
}

/// The raw sample buffer: text for the textual encoding, bytes for the
/// packed binary one.
pub enum DataInput {
    Ascii(String),
    Binary(Vec<u8>),
}

// ---------------------------------------------------------------------
// The textual encoding, as spec functions
// ---------------------------------------------------------------------

/// The timestamp of one record, from its raw microsecond offset.
pub open spec fn spec_scaled_timestamp(schema: &DataSchema, micros: int) -> i64 {
    spec_record_timestamp(
        schema.first_data_time as int,
        schema.timestamp_multiplication_factor,
        micros,
    ) as i64
}

/// The analog fields of one text line, `toks[2 + j]` onward: integers,
/// with the documented sentinel decoding to nothing.
pub open spec fn spec_ascii_analogs(toks: Seq<Seq<char>>, j: int, na: int) -> Result<
    Seq<Option<i32>>,
    ComtradeError,
>
    decreases na - j when 0 <= j <= na && 2 + na <= toks.len()
{
    if j >= na {
        Ok(Seq::empty())
    } else {
        match spec_parse_i32(toks[2 + j]) {
            None => Err(ComtradeError::InvalidAnalogValue),
            Some(v) => match spec_ascii_analogs(toks, j + 1, na) {
                Err(e) => Err(e),
                Ok(rest) => Ok(
                    seq![if v == 99999 {
                        None
                    } else {
                        Some(v)
                    }] + rest,
                ),
            },
        }
    }
}

/// The status fields of one text line, `toks[2 + na + j]` onward: each
/// must be the literal digit `0` or `1`.
pub open spec fn spec_ascii_statuses(toks: Seq<Seq<char>>, j: int, na: int, ns: int) -> Result<
    Seq<bool>,
    ComtradeError,
>
    decreases ns - j when 0 <= j <= ns && 2 + na + ns <= toks.len() && 0 <= na
{
    if j >= ns {
        Ok(Seq::empty())
    } else if !(toks[2 + na + j] =~= seq!['0'] || toks[2 + na + j] =~= seq!['1']) {
        Err(ComtradeError::InvalidStatusValue)
    } else {
        match spec_ascii_statuses(toks, j + 1, na, ns) {
            Err(e) => Err(e),
            Ok(rest) => Ok(seq![toks[2 + na + j] =~= seq!['1']] + rest),
        }
    }
}

/// One text line: sample number, raw timestamp offset, the analog
/// fields, the status fields.
pub open spec fn spec_ascii_line(line: Seq<char>, schema: &DataSchema) -> Result<
    DataRecordView,
    ComtradeError,
> {
    let na = schema.analog_channel_count as int;
    let ns = schema.status_channel_count as int;
    let toks = spec_split_char(line, ',');
    if toks.len() != 2 + na + ns {
        Err(ComtradeError::DataFieldCount)
    } else if spec_parse_i32(toks[0]) is None {
        Err(ComtradeError::InvalidSampleNumber)
    } else if spec_parse_i64(toks[1]) is None && schema.critical_timestamp {
        Err(ComtradeError::InvalidTimestamp)
    } else {
        match spec_ascii_analogs(toks, 0, na) {
            Err(e) => Err(e),
            Ok(analogs) => match spec_ascii_statuses(toks, 0, na, ns) {
                Err(e) => Err(e),
                Ok(statuses) => Ok(
                    DataRecordView {
                        sample_number: spec_parse_i32(toks[0])->0 as int,
                        timestamp: match spec_parse_i64(toks[1]) {
                            Some(micros) => Some(spec_scaled_timestamp(schema, micros as int)),
                            None => None,
                        },
                        analog_values: analogs,
                        status_values: statuses,
                    },
                ),
            },
        }
    }
}

/// The text lines from `i` onward, each one record.
pub open spec fn spec_ascii_lines(lines: Seq<Seq<char>>, i: int, schema: &DataSchema) -> Result<
    Seq<DataRecordView>,
    ComtradeError,
>
    decreases lines.len() - i when 0 <= i <= lines.len()
{
    if i >= lines.len() {
        Ok(Seq::empty())
    } else {
        match spec_ascii_line(lines[i], schema) {
            Err(e) => Err(e),
            Ok(v) => match spec_ascii_lines(lines, i + 1, schema) {
                Err(e) => Err(e),
                Ok(rest) => Ok(seq![v] + rest),
            },
        }
    }
}

/// What decoding a textual data buffer yields.
pub open spec fn spec_decode_ascii(s: Seq<char>, schema: &DataSchema) -> Result<
    Seq<DataRecordView>,
    ComtradeError,
> {
    spec_ascii_lines(spec_split_crlf(s), 0, schema)
}

// ---------------------------------------------------------------------
// The binary encoding, as spec functions
// ---------------------------------------------------------------------

/// How many two-byte groups carry `ns` status channels: sixteen to a
/// group, a partial group still occupying a whole one.
pub open spec fn spec_group_count(ns: int) -> int {
    (ns + 15) / 16
}

/// Bytes of one binary record: sample number and timestamp words, two
/// bytes per analog channel, two per status group.
pub open spec fn spec_record_size(na: int, ns: int) -> int {
    8 + 2 * na + 2 * spec_group_count(ns)
}

/// A two-byte little-endian unsigned word.
pub open spec fn le16(b: Seq<u8>, off: int) -> int {
    b[off] + 256 * b[off + 1]
}

/// A four-byte little-endian unsigned word.
pub open spec fn le32(b: Seq<u8>, off: int) -> int {
    b[off] + 256 * b[off + 1] + 65536 * b[off + 2] + 16777216 * b[off + 3]
}

/// The signed reading of an unsigned 16-bit value.
pub open spec fn as_i16(u: int) -> int {
    if u >= 32768 {
        u - 65536
    } else {
        u
    }
}

/// The signed reading of an unsigned 32-bit value.
pub open spec fn as_i32(u: int) -> int {
    if u >= 2147483648 {
        u - 4294967296
    } else {
        u
    }
}

/// Bit `i` of a byte, least significant bit first.
pub open spec fn bit_of(byte: u8, i: u8) -> bool {
    (byte >> i) & 1 == 1
}

/// Status channel `j` of the record at `base`: channels fill each
/// two-byte group from the low bit of its first byte through the high
/// bit of its second.
pub open spec fn spec_status_bit(b: Seq<u8>, base: int, na: int, j: int) -> bool {
    let g = j / 16;
    let t = j % 16;
    if t < 8 {
        bit_of(b[base + 8 + 2 * na + 2 * g], t as u8)
    } else {
        bit_of(b[base + 8 + 2 * na + 2 * g + 1], (t - 8) as u8)
    }
}

/// Whether the record's four timestamp bytes are the null sentinel.
pub open spec fn spec_ts_null(b: Seq<u8>, base: int) -> bool {
    b[base + 4] == 0xFFu8 && b[base + 5] == 0xFFu8 && b[base + 6] == 0xFFu8 && b[base + 7]
        == 0xFFu8
}

/// One binary record at `base`.
pub open spec fn spec_binary_record(b: Seq<u8>, base: int, schema: &DataSchema) -> Result<
    DataRecordView,
    ComtradeError,
> {
    let na = schema.analog_channel_count as int;
    let ns = schema.status_channel_count as int;
    if spec_ts_null(b, base) && schema.critical_timestamp {
        Err(ComtradeError::InvalidTimestamp)
    } else {
        Ok(
            DataRecordView {
                sample_number: as_i32(le32(b, base)),
                timestamp: if spec_ts_null(b, base) {
                    None
                } else {
                    Some(spec_scaled_timestamp(schema, as_i32(le32(b, base + 4))))
                },
                analog_values: Seq::new(
                    na as nat,
                    |j: int|
                        if le16(b, base + 8 + 2 * j) == 32768 {
                            None
                        } else {
                            Some(as_i16(le16(b, base + 8 + 2 * j)) as i32)
                        },
                ),
                status_values: Seq::new(ns as nat, |j: int| spec_status_bit(b, base, na, j)),
            },
        )
    }
}

/// The records from `base` onward, `remaining` of them.
pub open spec fn spec_binary_records(
    b: Seq<u8>,
    base: int,
    remaining: int,
    schema: &DataSchema,
) -> Result<Seq<DataRecordView>, ComtradeError>
    decreases remaining when remaining >= 0
{
    if remaining <= 0 {
        Ok(Seq::empty())
    } else {
        match spec_binary_record(b, base, schema) {
            Err(e) => Err(e),
            Ok(v) => match spec_binary_records(
                b,
                base + spec_record_size(
                    schema.analog_channel_count as int,
                    schema.status_channel_count as int,
                ),
                remaining - 1,
                schema,
            ) {
                Err(e) => Err(e),
                Ok(rest) => Ok(seq![v] + rest),
            },
        }
    }
}

/// What decoding a binary data buffer yields: the buffer must be a
/// whole number of records long, and is then decoded record by record
/// until exhausted.
pub open spec fn spec_decode_binary(b: Seq<u8>, schema: &DataSchema) -> Result<
    Seq<DataRecordView>,
    ComtradeError,
> {
    let na = schema.analog_channel_count as int;
    let ns = schema.status_channel_count as int;
    let size = spec_record_size(na, ns);
    if (b.len() as int) % size != 0 {
        Err(ComtradeError::DataFieldCount)
    } else {
        spec_binary_records(b, 0, b.len() as int / size, schema)
    }
}

/// What decoding a data buffer yields, whatever its encoding.
pub open spec fn spec_decode_data(input: &DataInput, schema: &DataSchema) -> Result<
    Seq<DataRecordView>,
    ComtradeError,
> {
    match input {
        DataInput::Ascii(s) => spec_decode_ascii(s@, schema),
        DataInput::Binary(b) => spec_decode_binary(b@, schema),
    }
}

} // verus!

verus! {

// ---------------------------------------------------------------------
// Decoding the textual encoding
// ---------------------------------------------------------------------

proof fn lemma_ascii_analogs_snoc(toks: Seq<Seq<char>>, s: int, j: int)
    requires
        0 <= s <= j,
        2 + j < toks.len(),
        spec_ascii_analogs(toks, s, j) is Ok,
        spec_parse_i32(toks[2 + j]) is Some,
    ensures
        spec_ascii_analogs(toks, s, j + 1) == Ok::<_, ComtradeError>(
            spec_ascii_analogs(toks, s, j)->Ok_0.push(
                if spec_parse_i32(toks[2 + j])->0 == 99999 {
                    None
                } else {
                    Some(spec_parse_i32(toks[2 + j])->0)
                },
            ),
        ),
    decreases j - s,
{
    let v = if spec_parse_i32(toks[2 + j])->0 == 99999 {
        None
    } else {
        Some(spec_parse_i32(toks[2 + j])->0)
    };
    if s >= j {
        assert(spec_ascii_analogs(toks, s + 1, j + 1) == Ok::<_, ComtradeError>(
            Seq::<Option<i32>>::empty(),
        ));
        assert(seq![v] + Seq::<Option<i32>>::empty() =~= Seq::<Option<i32>>::empty().push(v));
    } else {
        lemma_ascii_analogs_snoc(toks, s + 1, j);
        let w = if spec_parse_i32(toks[2 + s])->0 == 99999 {
            None
        } else {
            Some(spec_parse_i32(toks[2 + s])->0)
        };
        let rest = spec_ascii_analogs(toks, s + 1, j)->Ok_0;
        assert(seq![w] + rest.push(v) =~= (seq![w] + rest).push(v));
    }
}

proof fn lemma_ascii_analogs_err(toks: Seq<Seq<char>>, s: int, j: int, na: int)
    requires
        0 <= s <= j < na,
        2 + na <= toks.len(),
        spec_ascii_analogs(toks, s, j) is Ok,
        spec_parse_i32(toks[2 + j]) is None,
    ensures
        spec_ascii_analogs(toks, s, na) == Err::<Seq<Option<i32>>, _>(
            ComtradeError::InvalidAnalogValue,
        ),
    decreases j - s,
{
    if s < j {
        lemma_ascii_analogs_err(toks, s + 1, j, na);
    }
}

/// Decodes the analog fields of one text line.
fn parse_ascii_analogs(toks: &Vec<Vec<char>>, na: usize) -> (r: Result<
    Vec<Option<i32>>,
    ComtradeError,
>)
    requires
        2 + na <= toks@.len(),
    ensures
        match r {
            Ok(v) => spec_ascii_analogs(toks.deep_view(), 0, na as int) == Ok::<_, ComtradeError>(
                v@,
            ),
            Err(e) => spec_ascii_analogs(toks.deep_view(), 0, na as int) == Err::<
                Seq<Option<i32>>,
                _,
            >(e),
        },
{
    let ghost td = toks.deep_view();
    let n = toks.len();
    let mut acc: Vec<Option<i32>> = Vec::new();
    let mut j: usize = 0;
    proof {
        assert(td.len() == toks@.len());
    }
    while j < na
        invariant
            j <= na,
            n == toks@.len(),
            2 + na <= n,
            td == toks.deep_view(),
            td.len() == toks@.len(),
            spec_ascii_analogs(td, 0, j as int) == Ok::<_, ComtradeError>(acc@),
        decreases na - j,
    {
        let t = &toks[2 + j];
        proof {
            assert(td[2 + j] == toks@[2 + j]@);
            assert(t@.subrange(0, t@.len() as int) =~= td[2 + j]);
        }
        match parse_i32_range(t, 0, t.len()) {
            Some(v) => {
                proof {
                    lemma_ascii_analogs_snoc(td, 0, j as int);
                }
                if v == 99999 {
                    acc.push(None);
                } else {
                    acc.push(Some(v));
                }
            },
            None => {
                proof {
                    lemma_ascii_analogs_err(td, 0, j as int, na as int);
                }
                return Err(ComtradeError::InvalidAnalogValue);
            },
        }
        j = j + 1;
    }
    Ok(acc)
}

proof fn lemma_ascii_statuses_snoc(toks: Seq<Seq<char>>, s: int, j: int, na: int)
    requires
        0 <= s <= j,
        0 <= na,
        2 + na + j < toks.len(),
        spec_ascii_statuses(toks, s, na, j) is Ok,
        toks[2 + na + j] =~= seq!['0'] || toks[2 + na + j] =~= seq!['1'],
    ensures
        spec_ascii_statuses(toks, s, na, j + 1) == Ok::<_, ComtradeError>(
            spec_ascii_statuses(toks, s, na, j)->Ok_0.push(toks[2 + na + j] =~= seq!['1']),
        ),
    decreases j - s,
{
    let v = toks[2 + na + j] =~= seq!['1'];
    if s >= j {
        assert(spec_ascii_statuses(toks, s + 1, na, j + 1) == Ok::<_, ComtradeError>(
            Seq::<bool>::empty(),
        ));
        assert(seq![v] + Seq::<bool>::empty() =~= Seq::<bool>::empty().push(v));
    } else {
        lemma_ascii_statuses_snoc(toks, s + 1, j, na);
        let w = toks[2 + na + s] =~= seq!['1'];
        let rest = spec_ascii_statuses(toks, s + 1, na, j)->Ok_0;
        assert(seq![w] + rest.push(v) =~= (seq![w] + rest).push(v));
    }
}

proof fn lemma_ascii_statuses_err(toks: Seq<Seq<char>>, s: int, j: int, na: int, ns: int)
    requires
        0 <= s <= j < ns,
        0 <= na,
        2 + na + ns <= toks.len(),
        spec_ascii_statuses(toks, s, na, j) is Ok,
        !(toks[2 + na + j] =~= seq!['0'] || toks[2 + na + j] =~= seq!['1']),
    ensures
        spec_ascii_statuses(toks, s, na, ns) == Err::<Seq<bool>, _>(
            ComtradeError::InvalidStatusValue,
        ),
    decreases j - s,
{
    if s < j {
        lemma_ascii_statuses_err(toks, s + 1, j, na, ns);
    }
}

/// Decodes the status fields of one text line.
fn parse_ascii_statuses(toks: &Vec<Vec<char>>, na: usize, ns: usize) -> (r: Result<
    Vec<bool>,
    ComtradeError,
>)
    requires
        2 + na + ns <= toks@.len(),
    ensures
        match r {
            Ok(v) => spec_ascii_statuses(toks.deep_view(), 0, na as int, ns as int)
                == Ok::<_, ComtradeError>(v@),
            Err(e) => spec_ascii_statuses(toks.deep_view(), 0, na as int, ns as int) == Err::<
                Seq<bool>,
                _,
            >(e),
        },
{
    let ghost td = toks.deep_view();
    let n = toks.len();
    let mut acc: Vec<bool> = Vec::new();
    let mut j: usize = 0;
    proof {
        assert(td.len() == toks@.len());
    }
    while j < ns
        invariant
            j <= ns,
            n == toks@.len(),
            2 + na + ns <= n,
            td == toks.deep_view(),
            td.len() == toks@.len(),
            spec_ascii_statuses(td, 0, na as int, j as int) == Ok::<_, ComtradeError>(acc@),
        decreases ns - j,
    {
        let t = &toks[2 + na + j];
        proof {
            assert(td[2 + na + j] == toks@[2 + na + j]@);
        }
        let is_zero = t.len() == 1 && t[0] == '0';
        let is_one = t.len() == 1 && t[0] == '1';
        proof {
            if is_zero {
                assert(td[2 + na + j] =~= seq!['0']);
            } else {
                assert(!(td[2 + na + j] =~= seq!['0']));
            }
            if is_one {
                assert(td[2 + na + j] =~= seq!['1']);
            } else {
                assert(!(td[2 + na + j] =~= seq!['1']));
            }
        }
        if is_zero || is_one {
            proof {
                lemma_ascii_statuses_snoc(td, 0, j as int, na as int);
            }
            acc.push(is_one);
        } else {
            proof {
                lemma_ascii_statuses_err(td, 0, j as int, na as int, ns as int);
            }
            return Err(ComtradeError::InvalidStatusValue);
        }
        j = j + 1;
    }
    Ok(acc)
}

/// Decodes one text line into a record.
fn parse_ascii_line(line: &Vec<char>, schema: &DataSchema) -> (r: Result<
    DataRecord,
    ComtradeError,
>)
    requires
        schema.analog_channel_count >= 0,
        schema.status_channel_count >= 0,
    ensures
        match r {
            Ok(d) => spec_ascii_line(line@, schema) == Ok::<DataRecordView, ComtradeError>(d@),
            Err(e) => spec_ascii_line(line@, schema) == Err::<DataRecordView, _>(e),
        },
{
    let na = schema.analog_channel_count as usize;
    let ns = schema.status_channel_count as usize;
    let toks = split_char(line, ',');
    let ghost td = toks.deep_view();
    proof {
        assert(td.len() == toks@.len());
    }
    if (toks.len() as u64) != 2 + (na as u64) + (ns as u64) {
        return Err(ComtradeError::DataFieldCount);
    }
    proof {
        assert(td[0] == toks@[0]@);
        assert(td[1] == toks@[1]@);
        assert(toks@[0]@.subrange(0, toks@[0]@.len() as int) =~= td[0]);
        assert(toks@[1]@.subrange(0, toks@[1]@.len() as int) =~= td[1]);
    }
    let sample_number = match parse_i32_range(&toks[0], 0, toks[0].len()) {
        Some(x) => x,
        None => {
            return Err(ComtradeError::InvalidSampleNumber);
        },
    };
    let timestamp = match parse_i64_range(&toks[1], 0, toks[1].len()) {
        Some(micros) => Some(
            scale_timestamp(
                schema.first_data_time,
                &schema.timestamp_multiplication_factor,
                micros,
            ),
        ),
        None => {
            if schema.critical_timestamp {
                return Err(ComtradeError::InvalidTimestamp);
            }
            None
        },
    };
    let analog_values = match parse_ascii_analogs(&toks, na) {
        Ok(v) => v,
        Err(e) => {
            return Err(e);
        },
    };
    let status_values = match parse_ascii_statuses(&toks, na, ns) {
        Ok(v) => v,
        Err(e) => {
            return Err(e);
        },
    };
    Ok(DataRecord { sample_number, timestamp, analog_values, status_values })
}

} // verus!

verus! {

proof fn lemma_ascii_lines_snoc(lines: Seq<Seq<char>>, s: int, i: int, schema: &DataSchema)
    requires
        0 <= s <= i < lines.len(),
        spec_ascii_lines(lines.take(i), s, schema) is Ok,
        spec_ascii_line(lines[i], schema) is Ok,
    ensures
        spec_ascii_lines(lines.take(i + 1), s, schema) == Ok::<_, ComtradeError>(
            spec_ascii_lines(lines.take(i), s, schema)->Ok_0.push(
                spec_ascii_line(lines[i], schema)->Ok_0,
            ),
        ),
    decreases i - s,
{
    let v = spec_ascii_line(lines[i], schema)->Ok_0;
    assert(lines.take(i + 1)[i] == lines[i]);
    if s >= i {
        assert(spec_ascii_lines(lines.take(i + 1), s + 1, schema) == Ok::<_, ComtradeError>(
            Seq::<DataRecordView>::empty(),
        ));
        assert(seq![v] + Seq::<DataRecordView>::empty()
            =~= Seq::<DataRecordView>::empty().push(v));
    } else {
        assert(lines.take(i + 1)[s] == lines[s]);
        assert(lines.take(i)[s] == lines[s]);
        lemma_ascii_lines_snoc(lines, s + 1, i, schema);
        let w = spec_ascii_line(lines[s], schema)->Ok_0;
        let rest = spec_ascii_lines(lines.take(i), s + 1, schema)->Ok_0;
        assert(seq![w] + rest.push(v) =~= (seq![w] + rest).push(v));
    }
}

proof fn lemma_ascii_lines_err(lines: Seq<Seq<char>>, s: int, i: int, schema: &DataSchema)
    requires
        0 <= s <= i < lines.len(),
        spec_ascii_lines(lines.take(i), s, schema) is Ok,
        spec_ascii_line(lines[i], schema) is Err,
    ensures
        spec_ascii_lines(lines, s, schema) == Err::<Seq<DataRecordView>, _>(
            spec_ascii_line(lines[i], schema)->Err_0,
        ),
    decreases i - s,
{
    if s < i {
        assert(lines.take(i)[s] == lines[s]);
        lemma_ascii_lines_err(lines, s + 1, i, schema);
    }
}

/// Decodes a whole textual data buffer, line by line.
pub fn deserialize_comtrade_data_ascii(input: &str, schema: &DataSchema) -> (r: Result<
    Vec<DataRecord>,
    ComtradeError,
>)
    requires
        schema.analog_channel_count >= 0,
        schema.status_channel_count >= 0,
    ensures
        match r {
            Ok(records) => spec_decode_ascii(input@, schema) == Ok::<_, ComtradeError>(
                records.deep_view(),
            ),
            Err(e) => spec_decode_ascii(input@, schema) == Err::<Seq<DataRecordView>, _>(e),
        },
{
    let chars = to_chars(input);
    let lines = split_crlf(&chars);
    let ghost ld = lines.deep_view();
    let n = lines.len();
    let mut records: Vec<DataRecord> = Vec::new();
    let mut i: usize = 0;
    proof {
        assert(ld.len() == n);
        assert(ld.take(0) =~= Seq::<Seq<char>>::empty());
        assert(records.deep_view() =~= Seq::<DataRecordView>::empty());
    }
    while i < n
        invariant
            i <= n,
            n == lines@.len(),
            ld == lines.deep_view(),
            ld.len() == n,
            ld == spec_split_crlf(input@),
            schema.analog_channel_count >= 0,
            schema.status_channel_count >= 0,
            spec_ascii_lines(ld.take(i as int), 0, schema) == Ok::<_, ComtradeError>(
                records.deep_view(),
            ),
        decreases n - i,
    {
        proof {
            assert(ld[i as int] == lines@[i as int]@);
        }
        match parse_ascii_line(&lines[i], schema) {
            Ok(d) => {
                let ghost prev = records.deep_view();
                proof {
                    lemma_ascii_lines_snoc(ld, 0, i as int, schema);
                }
                records.push(d);
                proof {
                    assert(records.deep_view() =~= prev.push(d@));
                }
            },
            Err(e) => {
                proof {
                    lemma_ascii_lines_err(ld, 0, i as int, schema);
                }
                return Err(e);
            },
        }
        i = i + 1;
    }
    proof {
        assert(ld.take(n as int) =~= ld);
    }
    Ok(records)
}

} // verus!

verus! {

// ---------------------------------------------------------------------
// Decoding the binary encoding
// ---------------------------------------------------------------------

/// Decodes the record whose first byte stands at `base`.
fn parse_binary_record(b: &Vec<u8>, base: usize, schema: &DataSchema) -> (r: Result<
    DataRecord,
    ComtradeError,
>)
    requires
        schema.analog_channel_count >= 0,
        schema.status_channel_count >= 0,
        base + spec_record_size(
            schema.analog_channel_count as int,
            schema.status_channel_count as int,
        ) <= b@.len(),
    ensures
        match r {
            Ok(d) => spec_binary_record(b@, base as int, schema) == Ok::<
                DataRecordView,
                ComtradeError,
            >(d@),
            Err(e) => spec_binary_record(b@, base as int, schema) == Err::<DataRecordView, _>(e),
        },
{
    let na = schema.analog_channel_count as usize;
    let ns = schema.status_channel_count as usize;
    let ghost size = spec_record_size(na as int, ns as int);
    let blen = b.len();
    proof {
        assert(spec_group_count(ns as int) >= 0) by {
            vstd::arithmetic::div_mod::lemma_div_pos_is_pos(ns as int + 15, 16);
        }
        assert(b@.len() == blen);
    }
    // sample number
    let s0 = b[base] as u64;
    let s1 = b[base + 1] as u64;
    let s2 = b[base + 2] as u64;
    let s3 = b[base + 3] as u64;
    let su: u64 = s0 + 256 * s1 + 65536 * s2 + 16777216 * s3;
    let sample_number: i32 = if su >= 2147483648 {
        ((su as i64) - 4294967296) as i32
    } else {
        su as i32
    };
    proof {
        assert(sample_number as int == as_i32(le32(b@, base as int)));
    }
    // timestamp
    let ts_null = b[base + 4] == 0xFF && b[base + 5] == 0xFF && b[base + 6] == 0xFF && b[base + 7]
        == 0xFF;
    if ts_null && schema.critical_timestamp {
        return Err(ComtradeError::InvalidTimestamp);
    }
    let timestamp: Option<i64> = if ts_null {
        None
    } else {
        let t0 = b[base + 4] as u64;
        let t1 = b[base + 5] as u64;
        let t2 = b[base + 6] as u64;
        let t3 = b[base + 7] as u64;
        let tu: u64 = t0 + 256 * t1 + 65536 * t2 + 16777216 * t3;
        let micros: i64 = if tu >= 2147483648 {
            (tu as i64) - 4294967296
        } else {
            tu as i64
        };
        proof {
            assert(micros as int == as_i32(le32(b@, base + 4)));
        }
        Some(
            scale_timestamp(
                schema.first_data_time,
                &schema.timestamp_multiplication_factor,
                micros,
            ),
        )
    };
    // analog channels
    let mut analog_values: Vec<Option<i32>> = Vec::new();
    let mut j: usize = 0;
    while j < na
        invariant
            j <= na,
            na == schema.analog_channel_count as usize,
            ns == schema.status_channel_count as usize,
            schema.analog_channel_count >= 0,
            schema.status_channel_count >= 0,
            base + spec_record_size(na as int, ns as int) <= b@.len(),
            b@.len() <= usize::MAX,
            spec_group_count(ns as int) >= 0,
            analog_values@.len() == j,
            forall|k: int|
                0 <= k < j ==> analog_values@[k] == (if le16(b@, base + 8 + 2 * k) == 32768 {
                    None::<i32>
                } else {
                    Some(as_i16(le16(b@, base + 8 + 2 * k)) as i32)
                }),
        decreases na - j,
    {
        let off = base + 8 + 2 * j;
        let u: u32 = b[off] as u32 + 256 * (b[off + 1] as u32);
        proof {
            assert(u as int == le16(b@, base + 8 + 2 * (j as int)));
        }
        if u == 32768 {
            analog_values.push(None);
        } else {
            let v: i32 = if u >= 32768 {
                ((u as i32) - 32768) - 32768
            } else {
                u as i32
            };
            proof {
                assert(v as int == as_i16(le16(b@, base + 8 + 2 * (j as int))));
            }
            analog_values.push(Some(v));
        }
        j = j + 1;
    }
    // status channels
    let mut status_values: Vec<bool> = Vec::new();
    let mut j2: usize = 0;
    while j2 < ns
        invariant
            j2 <= ns,
            na == schema.analog_channel_count as usize,
            ns == schema.status_channel_count as usize,
            schema.analog_channel_count >= 0,
            schema.status_channel_count >= 0,
            base + spec_record_size(na as int, ns as int) <= b@.len(),
            b@.len() <= usize::MAX,
            status_values@.len() == j2,
            forall|k: int|
                0 <= k < j2 ==> status_values@[k] == spec_status_bit(
                    b@,
                    base as int,
                    na as int,
                    k,
                ),
        decreases ns - j2,
    {
        let g = j2 / 16;
        let t = j2 % 16;
        proof {
            vstd::arithmetic::div_mod::lemma_div_is_ordered(j2 as int, ns as int - 1, 16);
            vstd::arithmetic::div_mod::lemma_fundamental_div_mod(ns as int - 1, 16);
            vstd::arithmetic::div_mod::lemma_fundamental_div_mod_converse(
                ns as int + 15,
                16,
                (ns as int - 1) / 16 + 1,
                (ns as int - 1) % 16,
            );
            assert((j2 as int) / 16 < spec_group_count(ns as int));
            assert(g as int == (j2 as int) / 16);
            assert(t as int == (j2 as int) % 16);
        }
        let off = base + 8 + 2 * na + 2 * g;
        let bit = if t < 8 {
            let byte = b[off];
            (byte >> (t as u8)) & 1 == 1
        } else {
            let byte = b[off + 1];
            (byte >> ((t - 8) as u8)) & 1 == 1
        };
        proof {
            assert(bit == spec_status_bit(b@, base as int, na as int, j2 as int));
        }
        status_values.push(bit);
        j2 = j2 + 1;
    }
    let d = DataRecord { sample_number, timestamp, analog_values, status_values };
    proof {
        assert(d@.analog_values =~= Seq::new(
            na as nat,
            |j: int|
                if le16(b@, base + 8 + 2 * j) == 32768 {
                    None::<i32>
                } else {
                    Some(as_i16(le16(b@, base + 8 + 2 * j)) as i32)
                },
        ));
        assert(d@.status_values =~= Seq::new(
            ns as nat,
            |j: int| spec_status_bit(b@, base as int, na as int, j),
        ));
    }
    Ok(d)
}

} // verus!

verus! {

proof fn lemma_binary_snoc(b: Seq<u8>, base0: int, r: int, schema: &DataSchema)
    requires
        r >= 0,
        spec_binary_records(b, base0, r, schema) is Ok,
        spec_binary_record(
            b,
            base0 + r * spec_record_size(
                schema.analog_channel_count as int,
                schema.status_channel_count as int,
            ),
            schema,
        ) is Ok,
    ensures
        spec_binary_records(b, base0, r + 1, schema) == Ok::<_, ComtradeError>(
            spec_binary_records(b, base0, r, schema)->Ok_0.push(
                spec_binary_record(
                    b,
                    base0 + r * spec_record_size(
                        schema.analog_channel_count as int,
                        schema.status_channel_count as int,
                    ),
                    schema,
                )->Ok_0,
            ),
        ),
    decreases r,
{
    let size = spec_record_size(
        schema.analog_channel_count as int,
        schema.status_channel_count as int,
    );
    let v = spec_binary_record(b, base0 + r * size, schema)->Ok_0;
    if r == 0 {
        assert(0 * size == 0) by (nonlinear_arith);
        assert(spec_binary_records(b, base0 + size, 0, schema) == Ok::<_, ComtradeError>(
            Seq::<DataRecordView>::empty(),
        ));
        assert(seq![v] + Seq::<DataRecordView>::empty()
            =~= Seq::<DataRecordView>::empty().push(v));
    } else {
        assert((base0 + size) + (r - 1) * size == base0 + r * size) by (nonlinear_arith);
        lemma_binary_snoc(b, base0 + size, r - 1, schema);
        let w = spec_binary_record(b, base0, schema)->Ok_0;
        let rest = spec_binary_records(b, base0 + size, r - 1, schema)->Ok_0;
        assert(seq![w] + rest.push(v) =~= (seq![w] + rest).push(v));
    }
}

proof fn lemma_binary_err(b: Seq<u8>, base0: int, r: int, count: int, schema: &DataSchema)
    requires
        0 <= r < count,
        spec_binary_records(b, base0, r, schema) is Ok,
        spec_binary_record(
            b,
            base0 + r * spec_record_size(
                schema.analog_channel_count as int,
                schema.status_channel_count as int,
            ),
            schema,
        ) is Err,
    ensures
        spec_binary_records(b, base0, count, schema) == Err::<Seq<DataRecordView>, _>(
            spec_binary_record(
                b,
                base0 + r * spec_record_size(
                    schema.analog_channel_count as int,
                    schema.status_channel_count as int,
                ),
                schema,
            )->Err_0,
        ),
    decreases r,
{
    let size = spec_record_size(
        schema.analog_channel_count as int,
        schema.status_channel_count as int,
    );
    if r == 0 {
        assert(0 * size == 0) by (nonlinear_arith);
    } else {
        assert((base0 + size) + (r - 1) * size == base0 + r * size) by (nonlinear_arith);
        lemma_binary_err(b, base0 + size, r - 1, count - 1, schema);
    }
}

/// Decodes a whole binary data buffer: the length must be an exact
/// multiple of the record size, and the records are then read
/// back-to-back until the buffer is exhausted.
pub fn deserialize_comtrade_data_binary(b: &Vec<u8>, schema: &DataSchema) -> (r: Result<
    Vec<DataRecord>,
    ComtradeError,
>)
    requires
        schema.analog_channel_count >= 0,
        schema.status_channel_count >= 0,
    ensures
        match r {
            Ok(records) => spec_decode_binary(b@, schema) == Ok::<_, ComtradeError>(
                records.deep_view(),
            ),
            Err(e) => spec_decode_binary(b@, schema) == Err::<Seq<DataRecordView>, _>(e),
        },
{
    let ghost na = schema.analog_channel_count as int;
    let ghost ns = schema.status_channel_count as int;
    let ghost size = spec_record_size(na, ns);
    let gc64: u64 = (schema.status_channel_count as u64 + 15) / 16;
    let size64: u64 = 8 + 2 * (schema.analog_channel_count as u64) + 2 * gc64;
    proof {
        assert(gc64 as int == spec_group_count(ns));
        assert(size64 as int == size);
        vstd::arithmetic::div_mod::lemma_div_pos_is_pos(ns + 15, 16);
    }
    let blen = b.len();
    let blen64 = blen as u64;
    if blen64 % size64 != 0 {
        return Err(ComtradeError::DataFieldCount);
    }
    let count64: u64 = blen64 / size64;
    let ghost count = b@.len() as int / size;
    proof {
        assert(count64 as int == count);
        vstd::arithmetic::div_mod::lemma_fundamental_div_mod(blen as int, size);
        assert(count * size == blen) by (nonlinear_arith)
            requires
                blen == size * count + (blen as int) % size,
                (blen as int) % size == 0,
        ;
    }
    let mut records: Vec<DataRecord> = Vec::new();
    proof {
        assert(records.deep_view() =~= Seq::<DataRecordView>::empty());
    }
    if count64 == 0 {
        return Ok(records);
    }
    proof {
        assert(size <= blen) by (nonlinear_arith)
            requires
                count * size == blen,
                count >= 1,
                size > 0,
        ;
    }
    let size_us: usize = size64 as usize;
    let count_us: usize = count64 as usize;
    let mut r: usize = 0;
    let mut base: usize = 0;
    while r < count_us
        invariant
            0 <= r <= count_us,
            count_us as int == count,
            size_us as int == size,
            size == spec_record_size(na, ns),
            na == schema.analog_channel_count as int,
            ns == schema.status_channel_count as int,
            schema.analog_channel_count >= 0,
            schema.status_channel_count >= 0,
            base as int == r as int * size,
            count * size == b@.len(),
            (b@.len() as int) % size == 0,
            count == b@.len() as int / size,
            b@.len() <= usize::MAX,
            spec_binary_records(b@, 0, r as int, schema) == Ok::<_, ComtradeError>(
                records.deep_view(),
            ),
        decreases count_us - r,
    {
        proof {
            assert((r as int + 1) * size == r as int * size + size) by (nonlinear_arith);
            assert((r as int + 1) * size <= count * size) by (nonlinear_arith)
                requires
                    r as int + 1 <= count,
                    size > 0,
            ;
        }
        match parse_binary_record(b, base, schema) {
            Ok(d) => {
                let ghost prev = records.deep_view();
                proof {
                    lemma_binary_snoc(b@, 0, r as int, schema);
                    assert(0 + r as int * size == base as int);
                }
                records.push(d);
                proof {
                    assert(records.deep_view() =~= prev.push(d@));
                }
            },
            Err(e) => {
                proof {
                    assert(0 + r as int * size == base as int);
                    lemma_binary_err(b@, 0, r as int, count, schema);
                }
                return Err(e);
            },
        }
        r = r + 1;
        base = base + size_us;
    }
    Ok(records)
}

/// Decodes a data buffer against its schema, whatever its encoding.
pub fn deserialize_comtrade_data(input: &DataInput, schema: &DataSchema) -> (r: Result<
    Vec<DataRecord>,
    ComtradeError,
>)
    requires
        schema.analog_channel_count >= 0,
        schema.status_channel_count >= 0,
    ensures
        match r {
            Ok(records) => spec_decode_data(input, schema) == Ok::<_, ComtradeError>(
                records.deep_view(),
            ),
            Err(e) => spec_decode_data(input, schema) == Err::<Seq<DataRecordView>, _>(e),
        },
{
    match input {
        DataInput::Ascii(s) => deserialize_comtrade_data_ascii(s.as_str(), schema),
        DataInput::Binary(bytes) => deserialize_comtrade_data_binary(bytes, schema),
    }
}

} // verus!

verus! {

// ---------------------------------------------------------------------
// Laws of the binary layout
// ---------------------------------------------------------------------

/// A buffer decodes only when its length is an exact multiple of the
/// record size; any other length fails before a single record is
/// produced.
pub proof fn lemma_binary_length_multiple(b: Seq<u8>, schema: &DataSchema)
    ensures
        spec_decode_binary(b, schema) is Ok ==> (b.len() as int) % spec_record_size(
            schema.analog_channel_count as int,
            schema.status_channel_count as int,
        ) == 0,
        (b.len() as int) % spec_record_size(
            schema.analog_channel_count as int,
            schema.status_channel_count as int,
        ) != 0 ==> spec_decode_binary(b, schema) == Err::<Seq<DataRecordView>, _>(
            ComtradeError::DataFieldCount,
        ),
{
}

/// The bit of one packed byte: channel `j` of the byte contributes
/// `2^j` when set.
pub open spec fn pack_bit(bits: Seq<bool>, i: int) -> u8 {
    if 0 <= i < bits.len() && bits[i] {
        1
    } else {
        0
    }
}

/// One byte of the packed group: the eight channels `lo .. lo + 8`,
/// lowest-numbered channel in the least significant bit.
pub open spec fn pack_status_byte(bits: Seq<bool>, lo: int) -> u8 {
    (pack_bit(bits, lo) + 2 * pack_bit(bits, lo + 1) + 4 * pack_bit(bits, lo + 2) + 8 * pack_bit(
        bits,
        lo + 3,
    ) + 16 * pack_bit(bits, lo + 4) + 32 * pack_bit(bits, lo + 5) + 64 * pack_bit(bits, lo + 6)
        + 128 * pack_bit(bits, lo + 7)) as u8
}

proof fn lemma_byte_bit_extract(c0: u8, c1: u8, c2: u8, c3: u8, c4: u8, c5: u8, c6: u8, c7: u8, j: u8)
    requires
        c0 <= 1 && c1 <= 1 && c2 <= 1 && c3 <= 1 && c4 <= 1 && c5 <= 1 && c6 <= 1 && c7 <= 1,
        j < 8,
    ensures
        ({
            let byte = (c0 + 2 * c1 + 4 * c2 + 8 * c3 + 16 * c4 + 32 * c5 + 64 * c6 + 128
                * c7) as u8;
            (byte >> j) & 1 == (if j == 0 {
                c0
            } else if j == 1 {
                c1
            } else if j == 2 {
                c2
            } else if j == 3 {
                c3
            } else if j == 4 {
                c4
            } else if j == 5 {
                c5
            } else if j == 6 {
                c6
            } else {
                c7
            })
        }),
{
    assert(({
        let byte = ((c0 + 2 * c1 + 4 * c2 + 8 * c3 + 16 * c4 + 32 * c5 + 64 * c6 + 128
            * c7) as u8);
        (byte >> j) & 1 == (if j == 0 {
            c0
        } else if j == 1 {
            c1
        } else if j == 2 {
            c2
        } else if j == 3 {
            c3
        } else if j == 4 {
            c4
        } else if j == 5 {
            c5
        } else if j == 6 {
            c6
        } else {
            c7
        })
    })) by (bit_vector)
        requires
            c0 <= 1 && c1 <= 1 && c2 <= 1 && c3 <= 1 && c4 <= 1 && c5 <= 1 && c6 <= 1 && c7 <= 1,
            j < 8,
    ;
}

/// Round trip of the bit layout: any group of up to sixteen booleans,
/// packed into two bytes with the lowest-numbered channel in the least
/// significant bit of the first byte, unpacks by the decoder's
/// extraction rule to the original values.
pub proof fn lemma_status_group_round_trip(bits: Seq<bool>, k: int)
    requires
        bits.len() <= 16,
        0 <= k < bits.len(),
    ensures
        (if k < 8 {
            bit_of(pack_status_byte(bits, 0), k as u8)
        } else {
            bit_of(pack_status_byte(bits, 8), (k - 8) as u8)
        }) == bits[k],
{
    if k < 8 {
        lemma_byte_bit_extract(
            pack_bit(bits, 0),
            pack_bit(bits, 1),
            pack_bit(bits, 2),
            pack_bit(bits, 3),
            pack_bit(bits, 4),
            pack_bit(bits, 5),
            pack_bit(bits, 6),
            pack_bit(bits, 7),
            k as u8,
        );
    } else {
        lemma_byte_bit_extract(
            pack_bit(bits, 8),
            pack_bit(bits, 9),
            pack_bit(bits, 10),
            pack_bit(bits, 11),
            pack_bit(bits, 12),
            pack_bit(bits, 13),
            pack_bit(bits, 14),
            pack_bit(bits, 15),
            (k - 8) as u8,
        );
    }
}

} // verus!
