//! The configuration file: a strictly sequential nine-component grammar
//! over CRLF-delimited lines, where channel counts read early decide how
//! many later lines each component consumes.

use vstd::prelude::*;

use crate::text::{
    chars_to_string, is_ascii_word_vec, is_binary_word_vec, is_float_text, is_float_text_range,
    spec_parse_i32, spec_split_char, spec_split_crlf, split_char, split_crlf, parse_i32_range,
    parse_u32_range, spec_parse_u32, to_chars,
};
use crate::timescale::{
    parse_factor, spec_parse_factor, utc_nanos, utc_timestamp_nanos, TimestampFactor,
    REFERENCE_EPOCH_OFFSET_NANOS,
};
use crate::ComtradeError;

verus! {

// ---------------------------------------------------------------------
// The decoded records and their views
// ---------------------------------------------------------------------

/// The station line and the channel-count line together. The total is
/// deliberately not checked against the sum of the two partial counts:
/// both are stored as written.
#[derive(Debug, PartialEq, Eq)]
pub struct StationRecord {
    pub station_name: String,
    pub recording_device_id: String,
    /// Defaults to 1991 when the field does not parse; that is not an
    /// error.
    pub revision_year: i32,
    pub total_channel_count: i32,
    pub analog_channel_count: i32,
    pub status_channel_count: i32,
}

pub struct StationRecordView {
    pub station_name: Seq<char>,
    pub recording_device_id: Seq<char>,
    pub revision_year: int,
    pub total_channel_count: int,
    pub analog_channel_count: int,
    pub status_channel_count: int,
}

impl View for StationRecord {
    type V = StationRecordView;

    open spec fn view(&self) -> StationRecordView {
        StationRecordView {
            station_name: self.station_name@,
            recording_device_id: self.recording_device_id@,
            revision_year: self.revision_year as int,
            total_channel_count: self.total_channel_count as int,
            analog_channel_count: self.analog_channel_count as int,
            status_channel_count: self.status_channel_count as int,
        }
    }
}

/// Whether an analog channel's calibration factor is primary or
/// secondary.
#[derive(Clone, Copy, Debug, PartialEq, Eq, Structural)]
pub enum ScalingIdentifier {
    Primary,
    Secondary,
}

/// One analog channel descriptor line. The numeric calibration fields
/// are validated against the floating-point grammar and carried through
/// as text, never applied.
#[derive(Debug, PartialEq, Eq)]
pub struct AnalogChannelDescriptor {
    pub index: i32,
    pub id: String,
    pub phase: String,
    pub monitored_component: String,
    pub units: String,
    pub multiplier: String,
    pub offset_adder: String,
    pub skew: String,
    pub min: i32,
    pub max: i32,
    pub primary_factor: String,
    pub secondary_factor: String,
    pub scaling_identifier: ScalingIdentifier,
}

pub struct AnalogChannelDescriptorView {
    pub index: int,
    pub id: Seq<char>,
    pub phase: Seq<char>,
    pub monitored_component: Seq<char>,
    pub units: Seq<char>,
    pub multiplier: Seq<char>,
    pub offset_adder: Seq<char>,
    pub skew: Seq<char>,
    pub min: int,
    pub max: int,
    pub primary_factor: Seq<char>,
    pub secondary_factor: Seq<char>,
    pub scaling_identifier: ScalingIdentifier,
}

impl View for AnalogChannelDescriptor {
    type V = AnalogChannelDescriptorView;

    open spec fn view(&self) -> AnalogChannelDescriptorView {
        AnalogChannelDescriptorView {
            index: self.index as int,
            id: self.id@,
            phase: self.phase@,
            monitored_component: self.monitored_component@,
            units: self.units@,
            multiplier: self.multiplier@,
            offset_adder: self.offset_adder@,
            skew: self.skew@,
            min: self.min as int,
            max: self.max as int,
            primary_factor: self.primary_factor@,
            secondary_factor: self.secondary_factor@,
            scaling_identifier: self.scaling_identifier,
        }
    }
}

impl DeepView for AnalogChannelDescriptor {
    type V = AnalogChannelDescriptorView;

    open spec fn deep_view(&self) -> AnalogChannelDescriptorView {
        self.view()
    }
}

/// One status channel descriptor line.
#[derive(Debug, PartialEq, Eq)]
pub struct StatusChannelDescriptor {
    pub index: i32,
    pub id: String,
    pub phase: String,
    pub monitored_component: String,
    /// The channel's normal state: `1` decodes to `true`.
    pub normal_state: bool,
}

pub struct StatusChannelDescriptorView {
    pub index: int,
    pub id: Seq<char>,
    pub phase: Seq<char>,
    pub monitored_component: Seq<char>,
    pub normal_state: bool,
}

impl View for StatusChannelDescriptor {
    type V = StatusChannelDescriptorView;

    open spec fn view(&self) -> StatusChannelDescriptorView {
        StatusChannelDescriptorView {
            index: self.index as int,
            id: self.id@,
            phase: self.phase@,
            monitored_component: self.monitored_component@,
            normal_state: self.normal_state,
        }
    }
}

impl DeepView for StatusChannelDescriptor {
    type V = StatusChannelDescriptorView;

    open spec fn deep_view(&self) -> StatusChannelDescriptorView {
        self.view()
    }
}

/// One `rate,end_sample` line of the sample-rate block.
#[derive(Debug, PartialEq, Eq)]
pub struct SampleRateEntry {
    /// The rate as written, validated against the floating-point grammar.
    pub rate: String,
    pub last_sample_number: i32,
}

pub struct SampleRateEntryView {
    pub rate: Seq<char>,
    pub last_sample_number: int,
}

impl View for SampleRateEntry {
    type V = SampleRateEntryView;

    open spec fn view(&self) -> SampleRateEntryView {
        SampleRateEntryView { rate: self.rate@, last_sample_number: self.last_sample_number as int }
    }
}

impl DeepView for SampleRateEntry {
    type V = SampleRateEntryView;

    open spec fn deep_view(&self) -> SampleRateEntryView {
        self.view()
    }
}

/// The declared sample-rate count and the rate lines actually read.
/// Even a declared count of zero still reads exactly one rate line.
#[derive(Debug, PartialEq, Eq)]
pub struct SampleRateBlock {
    pub declared_count: i32,
    pub entries: Vec<SampleRateEntry>,
}

pub struct SampleRateBlockView {
    pub declared_count: int,
    pub entries: Seq<SampleRateEntryView>,
}

impl View for SampleRateBlock {
    type V = SampleRateBlockView;

    open spec fn view(&self) -> SampleRateBlockView {
        SampleRateBlockView {
            declared_count: self.declared_count as int,
            entries: self.entries.deep_view(),
        }
    }
}

/// Whether the data file is textual or packed binary.
#[derive(Clone, Copy, Debug, PartialEq, Eq, Structural)]
pub enum FileTypeField {
    Ascii,
    Binary,
}

/// The whole configuration file, in file order. Immutable once built;
/// consumed only as the schema input of the data decoder.
#[derive(Debug, PartialEq, Eq)]
pub struct ConfigurationRecord {
    pub station: StationRecord,
    pub analog_channels: Vec<AnalogChannelDescriptor>,
    pub status_channels: Vec<StatusChannelDescriptor>,
    /// The line frequency as written; an unparsable line is stored as
    /// nothing, not an error.
    pub line_frequency: Option<String>,
    pub sample_rates: SampleRateBlock,
    /// Nanoseconds relative to the reference epoch; a line of the wrong
    /// length is stored as nothing, not an error.
    pub first_data_time: Option<i64>,
    pub event_time: Option<i64>,
    pub file_type: FileTypeField,
    pub timestamp_multiplication_factor: TimestampFactor,
}

pub struct ConfigurationRecordView {
    pub station: StationRecordView,
    pub analog_channels: Seq<AnalogChannelDescriptorView>,
    pub status_channels: Seq<StatusChannelDescriptorView>,
    pub line_frequency: Option<Seq<char>>,
    pub sample_rates: SampleRateBlockView,
    pub first_data_time: Option<i64>,
    pub event_time: Option<i64>,
    pub file_type: FileTypeField,
    pub timestamp_multiplication_factor: TimestampFactor,
}

impl View for ConfigurationRecord {
    type V = ConfigurationRecordView;

    open spec fn view(&self) -> ConfigurationRecordView {
        ConfigurationRecordView {
            station: self.station@,
            analog_channels: self.analog_channels.deep_view(),
            status_channels: self.status_channels.deep_view(),
            line_frequency: match self.line_frequency {
                Some(ref s) => Some(s@),
                None => None,
            },
            sample_rates: self.sample_rates@,
            first_data_time: self.first_data_time,
            event_time: self.event_time,
            file_type: self.file_type,
            timestamp_multiplication_factor: self.timestamp_multiplication_factor,
        }
    }
}

} // verus!

verus! {

// ---------------------------------------------------------------------
// The grammar, as spec functions. Each stage takes the line sequence
// and a cursor and yields its value and the advanced cursor, or the
// error that aborts the whole parse.
// ---------------------------------------------------------------------

/// Stage 1 and 2 together: `station,device,year` then
/// `total,analogA,statusD`. The markers on the two partial counts are
/// stripped as the last character, whatever it is.
pub open spec fn spec_station(lines: Seq<Seq<char>>) -> Result<StationRecordView, ComtradeError> {
    if lines.len() < 1 {
        Err(ComtradeError::EarlyEof)
    } else {
        let toks1 = spec_split_char(lines[0], ',');
        if toks1.len() != 3 {
            Err(ComtradeError::StationFieldCount)
        } else if lines.len() < 2 {
            Err(ComtradeError::EarlyEof)
        } else {
            let toks2 = spec_split_char(lines[1], ',');
            if toks2.len() != 3 {
                Err(ComtradeError::ChannelCountFieldCount)
            } else if spec_parse_i32(toks2[0]) is None {
                Err(ComtradeError::InvalidTotalChannelCount)
            } else if toks2[1].len() == 0 || spec_parse_i32(toks2[1].drop_last()) is None {
                Err(ComtradeError::InvalidAnalogChannelCount)
            } else if toks2[2].len() == 0 || spec_parse_i32(toks2[2].drop_last()) is None {
                Err(ComtradeError::InvalidStatusChannelCount)
            } else {
                Ok(
                    StationRecordView {
                        station_name: toks1[0],
                        recording_device_id: toks1[1],
                        revision_year: match spec_parse_i32(toks1[2]) {
                            Some(y) => y as int,
                            None => 1991,
                        },
                        total_channel_count: spec_parse_i32(toks2[0])->0 as int,
                        analog_channel_count: spec_parse_i32(toks2[1].drop_last())->0 as int,
                        status_channel_count: spec_parse_i32(toks2[2].drop_last())->0 as int,
                    },
                )
            }
        }
    }
}

/// One analog descriptor line: 13 comma-separated fields, validated in
/// file order so that the first bad field decides the error.
pub open spec fn spec_analog_line(line: Seq<char>) -> Result<
    AnalogChannelDescriptorView,
    ComtradeError,
> {
    let toks = spec_split_char(line, ',');
    if toks.len() != 13 {
        Err(ComtradeError::AnalogFieldCount)
    } else if spec_parse_i32(toks[0]) is None {
        Err(ComtradeError::InvalidAnalogIndex)
    } else if !is_float_text(toks[5]) {
        Err(ComtradeError::InvalidMultiplier)
    } else if !is_float_text(toks[6]) {
        Err(ComtradeError::InvalidOffsetAdder)
    } else if !is_float_text(toks[7]) {
        Err(ComtradeError::InvalidSkew)
    } else if spec_parse_i32(toks[8]) is None {
        Err(ComtradeError::InvalidMinimum)
    } else if spec_parse_i32(toks[9]) is None {
        Err(ComtradeError::InvalidMaximum)
    } else if !is_float_text(toks[10]) {
        Err(ComtradeError::InvalidPrimaryFactor)
    } else if !is_float_text(toks[11]) {
        Err(ComtradeError::InvalidSecondaryFactor)
    } else if !(toks[12] =~= seq!['p'] || toks[12] =~= seq!['P'] || toks[12] =~= seq!['s']
        || toks[12] =~= seq!['S']) {
        Err(ComtradeError::InvalidScalingIdentifier)
    } else {
        Ok(
            AnalogChannelDescriptorView {
                index: spec_parse_i32(toks[0])->0 as int,
                id: toks[1],
                phase: toks[2],
                monitored_component: toks[3],
                units: toks[4],
                multiplier: toks[5],
                offset_adder: toks[6],
                skew: toks[7],
                min: spec_parse_i32(toks[8])->0 as int,
                max: spec_parse_i32(toks[9])->0 as int,
                primary_factor: toks[10],
                secondary_factor: toks[11],
                scaling_identifier: if toks[12] =~= seq!['p'] || toks[12] =~= seq!['P'] {
                    ScalingIdentifier::Primary
                } else {
                    ScalingIdentifier::Secondary
                },
            },
        )
    }
}

/// The run of analog descriptor lines starting at `cursor`.
pub open spec fn spec_analog_lines(lines: Seq<Seq<char>>, cursor: int, count: int) -> Result<
    Seq<AnalogChannelDescriptorView>,
    ComtradeError,
>
    decreases count when count >= 0
{
    if count <= 0 {
        Ok(Seq::empty())
    } else if cursor < 0 || cursor >= lines.len() {
        Err(ComtradeError::EarlyEof)
    } else {
        match spec_analog_line(lines[cursor]) {
            Err(e) => Err(e),
            Ok(v) => match spec_analog_lines(lines, cursor + 1, count - 1) {
                Err(e) => Err(e),
                Ok(rest) => Ok(seq![v] + rest),
            },
        }
    }
}

/// One status descriptor line: 5 comma-separated fields.
pub open spec fn spec_status_line(line: Seq<char>) -> Result<
    StatusChannelDescriptorView,
    ComtradeError,
> {
    let toks = spec_split_char(line, ',');
    if toks.len() != 5 {
        Err(ComtradeError::StatusFieldCount)
    } else if spec_parse_i32(toks[0]) is None {
        Err(ComtradeError::InvalidStatusIndex)
    } else if !(toks[4] =~= seq!['0'] || toks[4] =~= seq!['1']) {
        Err(ComtradeError::InvalidChannelState)
    } else {
        Ok(
            StatusChannelDescriptorView {
                index: spec_parse_i32(toks[0])->0 as int,
                id: toks[1],
                phase: toks[2],
                monitored_component: toks[3],
                normal_state: toks[4] =~= seq!['1'],
            },
        )
    }
}

/// The run of status descriptor lines starting at `cursor`.
pub open spec fn spec_status_lines(lines: Seq<Seq<char>>, cursor: int, count: int) -> Result<
    Seq<StatusChannelDescriptorView>,
    ComtradeError,
>
    decreases count when count >= 0
{
    if count <= 0 {
        Ok(Seq::empty())
    } else if cursor < 0 || cursor >= lines.len() {
        Err(ComtradeError::EarlyEof)
    } else {
        match spec_status_line(lines[cursor]) {
            Err(e) => Err(e),
            Ok(v) => match spec_status_lines(lines, cursor + 1, count - 1) {
                Err(e) => Err(e),
                Ok(rest) => Ok(seq![v] + rest),
            },
        }
    }
}

/// One `rate,end_sample` line.
pub open spec fn spec_rate_line(line: Seq<char>) -> Result<SampleRateEntryView, ComtradeError> {
    let toks = spec_split_char(line, ',');
    if toks.len() != 2 {
        Err(ComtradeError::SampleRateFieldCount)
    } else if !is_float_text(toks[0]) {
        Err(ComtradeError::InvalidSampleRate)
    } else if spec_parse_i32(toks[1]) is None {
        Err(ComtradeError::InvalidLastSampleNumber)
    } else {
        Ok(
            SampleRateEntryView {
                rate: toks[0],
                last_sample_number: spec_parse_i32(toks[1])->0 as int,
            },
        )
    }
}

/// The run of sample-rate lines starting at `cursor`.
pub open spec fn spec_rate_lines(lines: Seq<Seq<char>>, cursor: int, count: int) -> Result<
    Seq<SampleRateEntryView>,
    ComtradeError,
>
    decreases count when count >= 0
{
    if count <= 0 {
        Ok(Seq::empty())
    } else if cursor < 0 || cursor >= lines.len() {
        Err(ComtradeError::EarlyEof)
    } else {
        match spec_rate_line(lines[cursor]) {
            Err(e) => Err(e),
            Ok(v) => match spec_rate_lines(lines, cursor + 1, count - 1) {
                Err(e) => Err(e),
                Ok(rest) => Ok(seq![v] + rest),
            },
        }
    }
}

/// The sample-rate block: a declared count, then that many rate lines —
/// except that a declared count of zero still reads exactly one.
pub open spec fn spec_rate_block(lines: Seq<Seq<char>>, cursor: int) -> Result<
    (SampleRateBlockView, int),
    ComtradeError,
> {
    if cursor < 0 || cursor >= lines.len() {
        Err(ComtradeError::EarlyEof)
    } else {
        match spec_parse_i32(lines[cursor]) {
            None => Err(ComtradeError::InvalidSampleRateCount),
            Some(n) => if n < 0 || lines.len() < cursor + 1 + n {
                Err(ComtradeError::EarlyEof)
            } else {
                let read = if n == 0 {
                    1int
                } else {
                    n as int
                };
                if lines.len() < cursor + 1 + read {
                    Err(ComtradeError::EarlyEof)
                } else {
                    match spec_rate_lines(lines, cursor + 1, read) {
                        Err(e) => Err(e),
                        Ok(entries) => Ok(
                            (
                                SampleRateBlockView { declared_count: n as int, entries },
                                cursor + 1 + read,
                            ),
                        ),
                    }
                }
            },
        }
    }
}

/// One fixed-layout time line, `dd/mm/yyyy,hh:mm:ss.ssssss`. A line of
/// any other length is nothing, not an error; a line of the right
/// length whose fields do not parse, name no valid moment, or name one
/// before the representable range is the given error.
pub open spec fn spec_time_line(line: Seq<char>, e: ComtradeError) -> Result<
    Option<i64>,
    ComtradeError,
> {
    if line.len() != 26 {
        Ok(None)
    } else {
        let day = spec_parse_u32(line.subrange(0, 2));
        let month = spec_parse_u32(line.subrange(3, 5));
        let year = spec_parse_i32(line.subrange(6, 10));
        let hour = spec_parse_u32(line.subrange(11, 13));
        let minute = spec_parse_u32(line.subrange(14, 16));
        let second = spec_parse_u32(line.subrange(17, 19));
        let micro = spec_parse_u32(line.subrange(20, 26));
        if day is None || month is None || year is None || hour is None || minute is None
            || second is None || micro is None {
            Err(e)
        } else {
            match utc_nanos(
                year->0 as int,
                month->0 as int,
                day->0 as int,
                hour->0 as int,
                minute->0 as int,
                second->0 as int,
                micro->0 as int,
            ) {
                None => Err(e),
                Some(n) => if n - REFERENCE_EPOCH_OFFSET_NANOS < i64::MIN {
                    Err(e)
                } else {
                    Ok(Some((n - REFERENCE_EPOCH_OFFSET_NANOS) as i64))
                },
            }
        }
    }
}

/// The file-type line, matched case-insensitively.
pub open spec fn spec_file_type(line: Seq<char>) -> Result<FileTypeField, ComtradeError> {
    if crate::text::is_ascii_word(line) {
        Ok(FileTypeField::Ascii)
    } else if crate::text::is_binary_word(line) {
        Ok(FileTypeField::Binary)
    } else {
        Err(ComtradeError::InvalidFileType)
    }
}

/// The whole nine-component grammar. After the last component the
/// cursor must stand exactly at the end of the input.
pub open spec fn spec_parse_config(s: Seq<char>) -> Result<
    ConfigurationRecordView,
    ComtradeError,
> {
    let lines = spec_split_crlf(s);
    match spec_station(lines) {
        Err(e) => Err(e),
        Ok(station) => {
            let na = station.analog_channel_count;
            let ns = station.status_channel_count;
            if na < 0 || lines.len() < 2 + na {
                Err(ComtradeError::EarlyEof)
            } else {
                match spec_analog_lines(lines, 2, na) {
                    Err(e) => Err(e),
                    Ok(analogs) => if ns < 0 || lines.len() < 2 + na + ns {
                        Err(ComtradeError::EarlyEof)
                    } else {
                        match spec_status_lines(lines, 2 + na, ns) {
                            Err(e) => Err(e),
                            Ok(statuses) => {
                                let c5 = 2 + na + ns;
                                if c5 >= lines.len() {
                                    Err(ComtradeError::EarlyEof)
                                } else {
                                    let freq = if is_float_text(lines[c5]) {
                                        Some(lines[c5])
                                    } else {
                                        None
                                    };
                                    match spec_rate_block(lines, c5 + 1) {
                                        Err(e) => Err(e),
                                        Ok((rates, c7)) => if lines.len() < c7 + 2 {
                                            Err(ComtradeError::EarlyEof)
                                        } else {
                                            match spec_time_line(
                                                lines[c7],
                                                ComtradeError::InvalidFirstDataTime,
                                            ) {
                                                Err(e) => Err(e),
                                                Ok(first_time) => match spec_time_line(
                                                    lines[c7 + 1],
                                                    ComtradeError::InvalidEventTime,
                                                ) {
                                                    Err(e) => Err(e),
                                                    Ok(event_time) => if c7 + 2 >= lines.len() {
                                                        Err(ComtradeError::EarlyEof)
                                                    } else {
                                                        match spec_file_type(lines[c7 + 2]) {
                                                            Err(e) => Err(e),
                                                            Ok(ft) => if c7 + 3 >= lines.len() {
                                                                Err(ComtradeError::EarlyEof)
                                                            } else {
                                                                match spec_parse_factor(
                                                                    lines[c7 + 3],
                                                                ) {
                                                                    None => Err(
                                                                        ComtradeError::InvalidTimestampFactor,
                                                                    ),
                                                                    Some(factor) => if c7 + 4
                                                                        != lines.len() {
                                                                        Err(
                                                                            ComtradeError::TrailingData,
                                                                        )
                                                                    } else {
                                                                        Ok(
                                                                            ConfigurationRecordView {
                                                                                station,
                                                                                analog_channels:
                                                                                    analogs,
                                                                                status_channels:
                                                                                    statuses,
                                                                                line_frequency:
                                                                                    freq,
                                                                                sample_rates:
                                                                                    rates,
                                                                                first_data_time:
                                                                                    first_time,
                                                                                event_time,
                                                                                file_type: ft,
                                                                                timestamp_multiplication_factor:
                                                                                    factor,
                                                                            },
                                                                        )
                                                                    },
                                                                }
                                                            },
                                                        }
                                                    },
                                                },
                                            }
                                        },
                                    }
                                }
                            },
                        }
                    },
                }
            }
        },
    }
}

} // verus!

verus! {

// ---------------------------------------------------------------------
// Decoding one line of each repeated component
// ---------------------------------------------------------------------

/// Decodes one analog descriptor line.
fn parse_analog_line(line: &Vec<char>) -> (r: Result<AnalogChannelDescriptor, ComtradeError>)
    ensures
        match r {
            Ok(d) => spec_analog_line(line@) == Ok::<AnalogChannelDescriptorView, ComtradeError>(
                d@,
            ),
            Err(e) => spec_analog_line(line@) == Err::<AnalogChannelDescriptorView, _>(e),
        },
{
    let toks = split_char(line, ',');
    let ghost td = toks.deep_view();
    proof {
        assert(td.len() == toks@.len());
    }
    if toks.len() != 13 {
        return Err(ComtradeError::AnalogFieldCount);
    }
    proof {
        assert forall|i: int| 0 <= i < 13 implies td[i] == toks@[i]@ by {}
        assert forall|i: int| 0 <= i < 13 implies #[trigger] toks@[i]@.subrange(
            0,
            toks@[i]@.len() as int,
        ) =~= td[i] by {}
    }
    let index = match parse_i32_range(&toks[0], 0, toks[0].len()) {
        Some(x) => x,
        None => {
            return Err(ComtradeError::InvalidAnalogIndex);
        },
    };
    if !is_float_text_range(&toks[5], 0, toks[5].len()) {
        return Err(ComtradeError::InvalidMultiplier);
    }
    if !is_float_text_range(&toks[6], 0, toks[6].len()) {
        return Err(ComtradeError::InvalidOffsetAdder);
    }
    if !is_float_text_range(&toks[7], 0, toks[7].len()) {
        return Err(ComtradeError::InvalidSkew);
    }
    let min = match parse_i32_range(&toks[8], 0, toks[8].len()) {
        Some(x) => x,
        None => {
            return Err(ComtradeError::InvalidMinimum);
        },
    };
    let max = match parse_i32_range(&toks[9], 0, toks[9].len()) {
        Some(x) => x,
        None => {
            return Err(ComtradeError::InvalidMaximum);
        },
    };
    if !is_float_text_range(&toks[10], 0, toks[10].len()) {
        return Err(ComtradeError::InvalidPrimaryFactor);
    }
    if !is_float_text_range(&toks[11], 0, toks[11].len()) {
        return Err(ComtradeError::InvalidSecondaryFactor);
    }
    let sc = &toks[12];
    let scaling_identifier = if sc.len() == 1 && (sc[0] == 'p' || sc[0] == 'P') {
        proof {
            assert(td[12] =~= seq!['p'] || td[12] =~= seq!['P']);
        }
        ScalingIdentifier::Primary
    } else if sc.len() == 1 && (sc[0] == 's' || sc[0] == 'S') {
        proof {
            assert(td[12] =~= seq!['s'] || td[12] =~= seq!['S']);
            assert(!(td[12] =~= seq!['p']) && !(td[12] =~= seq!['P']));
        }
        ScalingIdentifier::Secondary
    } else {
        proof {
            assert(!(td[12] =~= seq!['p']) && !(td[12] =~= seq!['P']) && !(td[12] =~= seq!['s'])
                && !(td[12] =~= seq!['S']));
        }
        return Err(ComtradeError::InvalidScalingIdentifier);
    };
    let d = AnalogChannelDescriptor {
        index,
        id: chars_to_string(&toks[1]),
        phase: chars_to_string(&toks[2]),
        monitored_component: chars_to_string(&toks[3]),
        units: chars_to_string(&toks[4]),
        multiplier: chars_to_string(&toks[5]),
        offset_adder: chars_to_string(&toks[6]),
        skew: chars_to_string(&toks[7]),
        min,
        max,
        primary_factor: chars_to_string(&toks[10]),
        secondary_factor: chars_to_string(&toks[11]),
        scaling_identifier,
    };
    Ok(d)
}

/// Decodes one status descriptor line.
fn parse_status_line(line: &Vec<char>) -> (r: Result<StatusChannelDescriptor, ComtradeError>)
    ensures
        match r {
            Ok(d) => spec_status_line(line@) == Ok::<StatusChannelDescriptorView, ComtradeError>(
                d@,
            ),
            Err(e) => spec_status_line(line@) == Err::<StatusChannelDescriptorView, _>(e),
        },
{
    let toks = split_char(line, ',');
    let ghost td = toks.deep_view();
    proof {
        assert(td.len() == toks@.len());
    }
    if toks.len() != 5 {
        return Err(ComtradeError::StatusFieldCount);
    }
    proof {
        assert forall|i: int| 0 <= i < 5 implies td[i] == toks@[i]@ by {}
        assert forall|i: int| 0 <= i < 5 implies #[trigger] toks@[i]@.subrange(
            0,
            toks@[i]@.len() as int,
        ) =~= td[i] by {}
    }
    let index = match parse_i32_range(&toks[0], 0, toks[0].len()) {
        Some(x) => x,
        None => {
            return Err(ComtradeError::InvalidStatusIndex);
        },
    };
    let st = &toks[4];
    let normal_state = if st.len() == 1 && st[0] == '0' {
        proof {
            assert(td[4] =~= seq!['0']);
        }
        false
    } else if st.len() == 1 && st[0] == '1' {
        proof {
            assert(td[4] =~= seq!['1']);
            assert(!(td[4] =~= seq!['0']));
        }
        true
    } else {
        proof {
            assert(!(td[4] =~= seq!['0']) && !(td[4] =~= seq!['1']));
        }
        return Err(ComtradeError::InvalidChannelState);
    };
    let d = StatusChannelDescriptor {
        index,
        id: chars_to_string(&toks[1]),
        phase: chars_to_string(&toks[2]),
        monitored_component: chars_to_string(&toks[3]),
        normal_state,
    };
    Ok(d)
}

/// Decodes one sample-rate line.
fn parse_rate_line(line: &Vec<char>) -> (r: Result<SampleRateEntry, ComtradeError>)
    ensures
        match r {
            Ok(d) => spec_rate_line(line@) == Ok::<SampleRateEntryView, ComtradeError>(d@),
            Err(e) => spec_rate_line(line@) == Err::<SampleRateEntryView, _>(e),
        },
{
    let toks = split_char(line, ',');
    let ghost td = toks.deep_view();
    proof {
        assert(td.len() == toks@.len());
    }
    if toks.len() != 2 {
        return Err(ComtradeError::SampleRateFieldCount);
    }
    proof {
        assert forall|i: int| 0 <= i < 2 implies td[i] == toks@[i]@ by {}
        assert forall|i: int| 0 <= i < 2 implies #[trigger] toks@[i]@.subrange(
            0,
            toks@[i]@.len() as int,
        ) =~= td[i] by {}
    }
    if !is_float_text_range(&toks[0], 0, toks[0].len()) {
        return Err(ComtradeError::InvalidSampleRate);
    }
    let last_sample_number = match parse_i32_range(&toks[1], 0, toks[1].len()) {
        Some(x) => x,
        None => {
            return Err(ComtradeError::InvalidLastSampleNumber);
        },
    };
    Ok(SampleRateEntry { rate: chars_to_string(&toks[0]), last_sample_number })
}

/// Decodes the station and channel-count lines.
fn parse_station(lines: &Vec<Vec<char>>) -> (r: Result<StationRecord, ComtradeError>)
    ensures
        match r {
            Ok(d) => spec_station(lines.deep_view()) == Ok::<StationRecordView, ComtradeError>(
                d@,
            ),
            Err(e) => spec_station(lines.deep_view()) == Err::<StationRecordView, _>(e),
        },
{
    let ghost ld = lines.deep_view();
    proof {
        assert(ld.len() == lines@.len());
    }
    if lines.len() < 1 {
        return Err(ComtradeError::EarlyEof);
    }
    proof {
        assert(ld[0] == lines@[0]@);
    }
    let toks1 = split_char(&lines[0], ',');
    let ghost t1 = toks1.deep_view();
    proof {
        assert(t1.len() == toks1@.len());
    }
    if toks1.len() != 3 {
        return Err(ComtradeError::StationFieldCount);
    }
    if lines.len() < 2 {
        return Err(ComtradeError::EarlyEof);
    }
    proof {
        assert(ld[1] == lines@[1]@);
    }
    let toks2 = split_char(&lines[1], ',');
    let ghost t2 = toks2.deep_view();
    proof {
        assert(t2.len() == toks2@.len());
    }
    if toks2.len() != 3 {
        return Err(ComtradeError::ChannelCountFieldCount);
    }
    proof {
        assert forall|i: int| 0 <= i < 3 implies t1[i] == toks1@[i]@ by {}
        assert forall|i: int| 0 <= i < 3 implies t2[i] == toks2@[i]@ by {}
        assert forall|i: int| 0 <= i < 3 implies #[trigger] toks1@[i]@.subrange(
            0,
            toks1@[i]@.len() as int,
        ) =~= t1[i] by {}
        assert forall|i: int| 0 <= i < 3 implies #[trigger] toks2@[i]@.subrange(
            0,
            toks2@[i]@.len() as int,
        ) =~= t2[i] by {}
    }
    let total_channel_count = match parse_i32_range(&toks2[0], 0, toks2[0].len()) {
        Some(x) => x,
        None => {
            return Err(ComtradeError::InvalidTotalChannelCount);
        },
    };
    let a_tok = &toks2[1];
    if a_tok.len() == 0 {
        return Err(ComtradeError::InvalidAnalogChannelCount);
    }
    proof {
        assert(a_tok@.subrange(0, a_tok@.len() - 1) =~= t2[1].drop_last());
    }
    let analog_channel_count = match parse_i32_range(a_tok, 0, a_tok.len() - 1) {
        Some(x) => x,
        None => {
            return Err(ComtradeError::InvalidAnalogChannelCount);
        },
    };
    let s_tok = &toks2[2];
    if s_tok.len() == 0 {
        return Err(ComtradeError::InvalidStatusChannelCount);
    }
    proof {
        assert(s_tok@.subrange(0, s_tok@.len() - 1) =~= t2[2].drop_last());
    }
    let status_channel_count = match parse_i32_range(s_tok, 0, s_tok.len() - 1) {
        Some(x) => x,
        None => {
            return Err(ComtradeError::InvalidStatusChannelCount);
        },
    };
    let revision_year = match parse_i32_range(&toks1[2], 0, toks1[2].len()) {
        Some(y) => y,
        None => 1991,
    };
    Ok(
        StationRecord {
            station_name: chars_to_string(&toks1[0]),
            recording_device_id: chars_to_string(&toks1[1]),
            revision_year,
            total_channel_count,
            analog_channel_count,
            status_channel_count,
        },
    )
}

} // verus!

verus! {

// ---------------------------------------------------------------------
// Decoding the repeated components
// ---------------------------------------------------------------------

proof fn lemma_analog_snoc(lines: Seq<Seq<char>>, cursor: int, i: int)
    requires
        0 <= cursor,
        0 <= i,
        cursor + i < lines.len(),
        spec_analog_lines(lines, cursor, i) is Ok,
        spec_analog_line(lines[cursor + i]) is Ok,
    ensures
        spec_analog_lines(lines, cursor, i + 1) == Ok::<_, ComtradeError>(
            spec_analog_lines(lines, cursor, i)->Ok_0.push(
                spec_analog_line(lines[cursor + i])->Ok_0,
            ),
        ),
    decreases i,
{
    let v = spec_analog_line(lines[cursor + i])->Ok_0;
    if i == 0 {
        assert(spec_analog_lines(lines, cursor + 1, 0) == Ok::<_, ComtradeError>(
            Seq::<AnalogChannelDescriptorView>::empty(),
        ));
        assert(seq![v] + Seq::<AnalogChannelDescriptorView>::empty()
            =~= Seq::<AnalogChannelDescriptorView>::empty().push(v));
    } else {
        lemma_analog_snoc(lines, cursor + 1, i - 1);
        let w = spec_analog_line(lines[cursor])->Ok_0;
        let rest = spec_analog_lines(lines, cursor + 1, i - 1)->Ok_0;
        assert(seq![w] + rest.push(v) =~= (seq![w] + rest).push(v));
    }
}

proof fn lemma_analog_err(lines: Seq<Seq<char>>, cursor: int, i: int, count: int)
    requires
        0 <= cursor,
        0 <= i < count,
        cursor + i < lines.len(),
        spec_analog_lines(lines, cursor, i) is Ok,
        spec_analog_line(lines[cursor + i]) is Err,
    ensures
        spec_analog_lines(lines, cursor, count) == Err::<Seq<AnalogChannelDescriptorView>, _>(
            spec_analog_line(lines[cursor + i])->Err_0,
        ),
    decreases i,
{
    if i > 0 {
        lemma_analog_err(lines, cursor + 1, i - 1, count - 1);
    }
}

/// Decodes `count` analog descriptor lines starting at `cursor`.
fn parse_analog_block(lines: &Vec<Vec<char>>, cursor: usize, count: usize) -> (r: Result<
    Vec<AnalogChannelDescriptor>,
    ComtradeError,
>)
    requires
        cursor + count <= lines@.len(),
    ensures
        match r {
            Ok(v) => spec_analog_lines(lines.deep_view(), cursor as int, count as int)
                == Ok::<_, ComtradeError>(v.deep_view()),
            Err(e) => spec_analog_lines(lines.deep_view(), cursor as int, count as int)
                == Err::<Seq<AnalogChannelDescriptorView>, _>(e),
        },
{
    let ghost ld = lines.deep_view();
    let n = lines.len();
    let mut acc: Vec<AnalogChannelDescriptor> = Vec::new();
    let mut i: usize = 0;
    proof {
        assert(ld.len() == lines@.len());
        assert(acc.deep_view() =~= Seq::<AnalogChannelDescriptorView>::empty());
    }
    while i < count
        invariant
            i <= count,
            n == lines@.len(),
            cursor + count <= n,
            ld == lines.deep_view(),
            ld.len() == lines@.len(),
            spec_analog_lines(ld, cursor as int, i as int) == Ok::<_, ComtradeError>(
                acc.deep_view(),
            ),
        decreases count - i,
    {
        proof {
            assert(ld[cursor + i] == lines@[cursor + i]@);
        }
        match parse_analog_line(&lines[cursor + i]) {
            Ok(d) => {
                let ghost prev = acc.deep_view();
                proof {
                    lemma_analog_snoc(ld, cursor as int, i as int);
                }
                acc.push(d);
                proof {
                    assert(acc.deep_view() =~= prev.push(d@));
                }
            },
            Err(e) => {
                proof {
                    lemma_analog_err(ld, cursor as int, i as int, count as int);
                }
                return Err(e);
            },
        }
        i = i + 1;
    }
    Ok(acc)
}

proof fn lemma_status_snoc(lines: Seq<Seq<char>>, cursor: int, i: int)
    requires
        0 <= cursor,
        0 <= i,
        cursor + i < lines.len(),
        spec_status_lines(lines, cursor, i) is Ok,
        spec_status_line(lines[cursor + i]) is Ok,
    ensures
        spec_status_lines(lines, cursor, i + 1) == Ok::<_, ComtradeError>(
            spec_status_lines(lines, cursor, i)->Ok_0.push(
                spec_status_line(lines[cursor + i])->Ok_0,
            ),
        ),
    decreases i,
{
    let v = spec_status_line(lines[cursor + i])->Ok_0;
    if i == 0 {
        assert(spec_status_lines(lines, cursor + 1, 0) == Ok::<_, ComtradeError>(
            Seq::<StatusChannelDescriptorView>::empty(),
        ));
        assert(seq![v] + Seq::<StatusChannelDescriptorView>::empty()
            =~= Seq::<StatusChannelDescriptorView>::empty().push(v));
    } else {
        lemma_status_snoc(lines, cursor + 1, i - 1);
        let w = spec_status_line(lines[cursor])->Ok_0;
        let rest = spec_status_lines(lines, cursor + 1, i - 1)->Ok_0;
        assert(seq![w] + rest.push(v) =~= (seq![w] + rest).push(v));
    }
}

proof fn lemma_status_err(lines: Seq<Seq<char>>, cursor: int, i: int, count: int)
    requires
        0 <= cursor,
        0 <= i < count,
        cursor + i < lines.len(),
        spec_status_lines(lines, cursor, i) is Ok,
        spec_status_line(lines[cursor + i]) is Err,
    ensures
        spec_status_lines(lines, cursor, count) == Err::<Seq<StatusChannelDescriptorView>, _>(
            spec_status_line(lines[cursor + i])->Err_0,
        ),
    decreases i,
{
    if i > 0 {
        lemma_status_err(lines, cursor + 1, i - 1, count - 1);
    }
}

/// Decodes `count` status descriptor lines starting at `cursor`.
fn parse_status_block(lines: &Vec<Vec<char>>, cursor: usize, count: usize) -> (r: Result<
    Vec<StatusChannelDescriptor>,
    ComtradeError,
>)
    requires
        cursor + count <= lines@.len(),
    ensures
        match r {
            Ok(v) => spec_status_lines(lines.deep_view(), cursor as int, count as int)
                == Ok::<_, ComtradeError>(v.deep_view()),
            Err(e) => spec_status_lines(lines.deep_view(), cursor as int, count as int)
                == Err::<Seq<StatusChannelDescriptorView>, _>(e),
        },
{
    let ghost ld = lines.deep_view();
    let n = lines.len();
    let mut acc: Vec<StatusChannelDescriptor> = Vec::new();
    let mut i: usize = 0;
    proof {
        assert(ld.len() == lines@.len());
        assert(acc.deep_view() =~= Seq::<StatusChannelDescriptorView>::empty());
    }
    while i < count
        invariant
            i <= count,
            n == lines@.len(),
            cursor + count <= n,
            ld == lines.deep_view(),
            ld.len() == lines@.len(),
            spec_status_lines(ld, cursor as int, i as int) == Ok::<_, ComtradeError>(
                acc.deep_view(),
            ),
        decreases count - i,
    {
        proof {
            assert(ld[cursor + i] == lines@[cursor + i]@);
        }
        match parse_status_line(&lines[cursor + i]) {
            Ok(d) => {
                let ghost prev = acc.deep_view();
                proof {
                    lemma_status_snoc(ld, cursor as int, i as int);
                }
                acc.push(d);
                proof {
                    assert(acc.deep_view() =~= prev.push(d@));
                }
            },
            Err(e) => {
                proof {
                    lemma_status_err(ld, cursor as int, i as int, count as int);
                }
                return Err(e);
            },
        }
        i = i + 1;
    }
    Ok(acc)
}

proof fn lemma_rate_snoc(lines: Seq<Seq<char>>, cursor: int, i: int)
    requires
        0 <= cursor,
        0 <= i,
        cursor + i < lines.len(),
        spec_rate_lines(lines, cursor, i) is Ok,
        spec_rate_line(lines[cursor + i]) is Ok,
    ensures
        spec_rate_lines(lines, cursor, i + 1) == Ok::<_, ComtradeError>(
            spec_rate_lines(lines, cursor, i)->Ok_0.push(spec_rate_line(lines[cursor + i])->Ok_0),
        ),
    decreases i,
{
    let v = spec_rate_line(lines[cursor + i])->Ok_0;
    if i == 0 {
        assert(spec_rate_lines(lines, cursor + 1, 0) == Ok::<_, ComtradeError>(
            Seq::<SampleRateEntryView>::empty(),
        ));
        assert(seq![v] + Seq::<SampleRateEntryView>::empty()
            =~= Seq::<SampleRateEntryView>::empty().push(v));
    } else {
        lemma_rate_snoc(lines, cursor + 1, i - 1);
        let w = spec_rate_line(lines[cursor])->Ok_0;
        let rest = spec_rate_lines(lines, cursor + 1, i - 1)->Ok_0;
        assert(seq![w] + rest.push(v) =~= (seq![w] + rest).push(v));
    }
}

proof fn lemma_rate_err(lines: Seq<Seq<char>>, cursor: int, i: int, count: int)
    requires
        0 <= cursor,
        0 <= i < count,
        cursor + i < lines.len(),
        spec_rate_lines(lines, cursor, i) is Ok,
        spec_rate_line(lines[cursor + i]) is Err,
    ensures
        spec_rate_lines(lines, cursor, count) == Err::<Seq<SampleRateEntryView>, _>(
            spec_rate_line(lines[cursor + i])->Err_0,
        ),
    decreases i,
{
    if i > 0 {
        lemma_rate_err(lines, cursor + 1, i - 1, count - 1);
    }
}

/// Decodes the sample-rate block at `cursor`: the declared count line
/// and the rate lines after it.
fn parse_rate_block(lines: &Vec<Vec<char>>, cursor: usize) -> (r: Result<
    (SampleRateBlock, usize),
    ComtradeError,
>)
    ensures
        match r {
            Ok((block, next)) => spec_rate_block(lines.deep_view(), cursor as int)
                == Ok::<_, ComtradeError>((block@, next as int)) && next <= lines@.len(),
            Err(e) => spec_rate_block(lines.deep_view(), cursor as int) == Err::<
                (SampleRateBlockView, int),
                _,
            >(e),
        },
{
    let ghost ld = lines.deep_view();
    proof {
        assert(ld.len() == lines@.len());
    }
    if cursor >= lines.len() {
        return Err(ComtradeError::EarlyEof);
    }
    proof {
        assert(ld[cursor as int] == lines@[cursor as int]@);
        assert(lines@[cursor as int]@.subrange(0, lines@[cursor as int]@.len() as int)
            =~= ld[cursor as int]);
    }
    let count_line = &lines[cursor];
    let declared = match parse_i32_range(count_line, 0, count_line.len()) {
        Some(n) => n,
        None => {
            return Err(ComtradeError::InvalidSampleRateCount);
        },
    };
    if declared < 0 || lines.len() - cursor - 1 < declared as usize {
        return Err(ComtradeError::EarlyEof);
    }
    let read: usize = if declared == 0 {
        1
    } else {
        declared as usize
    };
    if lines.len() - cursor - 1 < read {
        return Err(ComtradeError::EarlyEof);
    }
    let mut acc: Vec<SampleRateEntry> = Vec::new();
    let mut i: usize = 0;
    let start = cursor + 1;
    proof {
        assert(acc.deep_view() =~= Seq::<SampleRateEntryView>::empty());
    }
    let n = lines.len();
    while i < read
        invariant
            i <= read,
            n == lines@.len(),
            start + read <= n,
            start == cursor + 1,
            cursor < n,
            ld == lines.deep_view(),
            ld.len() == lines@.len(),
            spec_parse_i32(ld[cursor as int]) == Some(declared),
            0 <= declared,
            n >= cursor + 1 + declared as int,
            read as int == (if declared == 0 {
                1int
            } else {
                declared as int
            }),
            spec_rate_lines(ld, start as int, i as int) == Ok::<_, ComtradeError>(
                acc.deep_view(),
            ),
        decreases read - i,
    {
        proof {
            assert(ld[start + i] == lines@[start + i]@);
        }
        match parse_rate_line(&lines[start + i]) {
            Ok(d) => {
                let ghost prev = acc.deep_view();
                proof {
                    lemma_rate_snoc(ld, start as int, i as int);
                }
                acc.push(d);
                proof {
                    assert(acc.deep_view() =~= prev.push(d@));
                }
            },
            Err(e) => {
                proof {
                    lemma_rate_err(ld, start as int, i as int, read as int);
                }
                return Err(e);
            },
        }
        i = i + 1;
    }
    Ok((SampleRateBlock { declared_count: declared, entries: acc }, cursor + 1 + read))
}

/// Decodes one fixed-layout time line into nanoseconds relative to the
/// reference epoch.
fn parse_time_line(line: &Vec<char>, e: ComtradeError) -> (r: Result<Option<i64>, ComtradeError>)
    ensures
        r == spec_time_line(line@, e),
{
    if line.len() != 26 {
        return Ok(None);
    }
    let day = match parse_u32_range(line, 0, 2) {
        Some(x) => x,
        None => {
            return Err(e);
        },
    };
    let month = match parse_u32_range(line, 3, 5) {
        Some(x) => x,
        None => {
            return Err(e);
        },
    };
    let year = match parse_i32_range(line, 6, 10) {
        Some(x) => x,
        None => {
            return Err(e);
        },
    };
    let hour = match parse_u32_range(line, 11, 13) {
        Some(x) => x,
        None => {
            return Err(e);
        },
    };
    let minute = match parse_u32_range(line, 14, 16) {
        Some(x) => x,
        None => {
            return Err(e);
        },
    };
    let second = match parse_u32_range(line, 17, 19) {
        Some(x) => x,
        None => {
            return Err(e);
        },
    };
    let micro = match parse_u32_range(line, 20, 26) {
        Some(x) => x,
        None => {
            return Err(e);
        },
    };
    match utc_timestamp_nanos(year, month, day, hour, minute, second, micro) {
        None => Err(e),
        Some(n) => match n.checked_sub(REFERENCE_EPOCH_OFFSET_NANOS) {
            None => Err(e),
            Some(rel) => Ok(Some(rel)),
        },
    }
}

} // verus!

verus! {

/// Decodes the configuration file: nine components in fixed order, a
/// cursor that must land exactly on the last line, and a single error
/// otherwise. No partial record is ever returned.
pub fn deserialize_comtrade_config(input: &str) -> (r: Result<ConfigurationRecord, ComtradeError>)
    ensures
        match r {
            Ok(c) => spec_parse_config(input@) == Ok::<_, ComtradeError>(c@),
            Err(e) => spec_parse_config(input@) == Err::<ConfigurationRecordView, _>(e),
        },
{
    let chars = to_chars(input);
    let lines = split_crlf(&chars);
    let ghost ld = lines.deep_view();
    let n = lines.len();
    proof {
        assert(ld.len() == n);
        assert(ld == spec_split_crlf(input@));
    }
    // components 1 and 2
    let station = match parse_station(&lines) {
        Ok(s) => s,
        Err(e) => {
            return Err(e);
        },
    };
    proof {
        assert(ld.len() >= 2);
    }
    let na_i = station.analog_channel_count;
    let ns_i = station.status_channel_count;
    // component 3
    if na_i < 0 || (na_i as usize) > n - 2 {
        return Err(ComtradeError::EarlyEof);
    }
    let na = na_i as usize;
    let analog_channels = match parse_analog_block(&lines, 2, na) {
        Ok(v) => v,
        Err(e) => {
            return Err(e);
        },
    };
    // component 4
    if ns_i < 0 || (ns_i as usize) > n - 2 - na {
        return Err(ComtradeError::EarlyEof);
    }
    let ns = ns_i as usize;
    let status_channels = match parse_status_block(&lines, 2 + na, ns) {
        Ok(v) => v,
        Err(e) => {
            return Err(e);
        },
    };
    // component 5: the line frequency degrades to nothing, never errs
    let c5 = 2 + na + ns;
    if c5 >= n {
        return Err(ComtradeError::EarlyEof);
    }
    proof {
        assert(ld[c5 as int] == lines@[c5 as int]@);
        assert(lines@[c5 as int]@.subrange(0, lines@[c5 as int]@.len() as int) =~= ld[c5 as int]);
    }
    let lf_line = &lines[c5];
    let line_frequency = if is_float_text_range(lf_line, 0, lf_line.len()) {
        Some(chars_to_string(lf_line))
    } else {
        None
    };
    // component 6
    let (sample_rates, c7) = match parse_rate_block(&lines, c5 + 1) {
        Ok(p) => p,
        Err(e) => {
            return Err(e);
        },
    };
    // component 7
    if n - c7 < 2 {
        return Err(ComtradeError::EarlyEof);
    }
    proof {
        assert(ld[c7 as int] == lines@[c7 as int]@);
        assert(ld[c7 + 1] == lines@[c7 + 1]@);
    }
    let first_data_time = match parse_time_line(&lines[c7], ComtradeError::InvalidFirstDataTime) {
        Ok(t) => t,
        Err(e) => {
            return Err(e);
        },
    };
    let event_time = match parse_time_line(&lines[c7 + 1], ComtradeError::InvalidEventTime) {
        Ok(t) => t,
        Err(e) => {
            return Err(e);
        },
    };
    // component 8
    if n - c7 < 3 {
        return Err(ComtradeError::EarlyEof);
    }
    proof {
        assert(ld[c7 + 2] == lines@[c7 + 2]@);
    }
    let ft_line = &lines[c7 + 2];
    let file_type = if is_ascii_word_vec(ft_line) {
        FileTypeField::Ascii
    } else if is_binary_word_vec(ft_line) {
        FileTypeField::Binary
    } else {
        return Err(ComtradeError::InvalidFileType);
    };
    // component 9
    if n - c7 < 4 {
        return Err(ComtradeError::EarlyEof);
    }
    proof {
        assert(ld[c7 + 3] == lines@[c7 + 3]@);
        assert(lines@[c7 + 3]@.subrange(0, lines@[c7 + 3]@.len() as int) =~= ld[c7 + 3]);
    }
    let f_line = &lines[c7 + 3];
    let timestamp_multiplication_factor = match parse_factor(f_line, 0, f_line.len()) {
        Some(f) => f,
        None => {
            return Err(ComtradeError::InvalidTimestampFactor);
        },
    };
    // the grammar tolerates no trailing content
    if n - c7 != 4 {
        return Err(ComtradeError::TrailingData);
    }
    Ok(
        ConfigurationRecord {
            station,
            analog_channels,
            status_channels,
            line_frequency,
            sample_rates,
            first_data_time,
            event_time,
            file_type,
            timestamp_multiplication_factor,
        },
    )
}

} // verus!

verus! {

// ---------------------------------------------------------------------
// Laws of the grammar
// ---------------------------------------------------------------------

proof fn lemma_analog_lines_len(lines: Seq<Seq<char>>, cursor: int, count: int)
    requires
        count >= 0,
        spec_analog_lines(lines, cursor, count) is Ok,
    ensures
        spec_analog_lines(lines, cursor, count)->Ok_0.len() == count,
    decreases count,
{
    if count > 0 {
        lemma_analog_lines_len(lines, cursor + 1, count - 1);
    }
}

proof fn lemma_status_lines_len(lines: Seq<Seq<char>>, cursor: int, count: int)
    requires
        count >= 0,
        spec_status_lines(lines, cursor, count) is Ok,
    ensures
        spec_status_lines(lines, cursor, count)->Ok_0.len() == count,
    decreases count,
{
    if count > 0 {
        lemma_status_lines_len(lines, cursor + 1, count - 1);
    }
}

proof fn lemma_rate_lines_len(lines: Seq<Seq<char>>, cursor: int, count: int)
    requires
        count >= 0,
        spec_rate_lines(lines, cursor, count) is Ok,
    ensures
        spec_rate_lines(lines, cursor, count)->Ok_0.len() == count,
    decreases count,
{
    if count > 0 {
        lemma_rate_lines_len(lines, cursor + 1, count - 1);
    }
}

/// A successful parse consumes every line of its input: the nine
/// components account for the whole file, eight single lines plus one
/// line per analog channel, per status channel and per sample-rate
/// entry read. The grammar tolerates no trailing content: a completed
/// grammar with lines left over is the trailing-data error, never a
/// record.
pub proof fn lemma_config_consumes_all_lines(s: Seq<char>)
    requires
        spec_parse_config(s) is Ok,
    ensures
        spec_split_crlf(s).len() == 8 + spec_parse_config(s)->Ok_0.analog_channels.len()
            + spec_parse_config(s)->Ok_0.status_channels.len() + spec_parse_config(
            s,
        )->Ok_0.sample_rates.entries.len(),
{
    let lines = spec_split_crlf(s);
    let r = spec_parse_config(s)->Ok_0;
    assert(spec_station(lines) is Ok);
    let station = spec_station(lines)->Ok_0;
    let na = station.analog_channel_count;
    let ns = station.status_channel_count;
    assert(na >= 0 && ns >= 0);
    assert(spec_analog_lines(lines, 2, na) is Ok);
    assert(r.analog_channels == spec_analog_lines(lines, 2, na)->Ok_0);
    lemma_analog_lines_len(lines, 2, na);
    assert(spec_status_lines(lines, 2 + na, ns) is Ok);
    assert(r.status_channels == spec_status_lines(lines, 2 + na, ns)->Ok_0);
    lemma_status_lines_len(lines, 2 + na, ns);
    let c5 = 2 + na + ns;
    assert(spec_rate_block(lines, c5 + 1) is Ok);
    let (rates, c7) = spec_rate_block(lines, c5 + 1)->Ok_0;
    assert(r.sample_rates == rates);
    let declared = spec_parse_i32(lines[c5 + 1])->0 as int;
    let read = if declared == 0 {
        1int
    } else {
        declared
    };
    assert(spec_rate_lines(lines, c5 + 2, read) is Ok);
    assert(rates.entries == spec_rate_lines(lines, c5 + 2, read)->Ok_0);
    assert(c7 == c5 + 2 + read);
    lemma_rate_lines_len(lines, c5 + 2, read);
    assert(lines.len() == c7 + 4);
}

} // verus!

verus! {

// ---------------------------------------------------------------------
// Prefix stability: a stage that succeeds sees only its own lines, so
// lines added after a complete grammar change nothing but the final
// cursor check.
// ---------------------------------------------------------------------

/// `l2` carries the lines of `l1` and then some more.
pub open spec fn extends(l1: Seq<Seq<char>>, l2: Seq<Seq<char>>) -> bool {
    l1.len() <= l2.len() && l2.take(l1.len() as int) == l1
}

proof fn lemma_extends_index(l1: Seq<Seq<char>>, l2: Seq<Seq<char>>, i: int)
    requires
        extends(l1, l2),
        0 <= i < l1.len(),
    ensures
        l2[i] == l1[i],
{
    assert(l2.take(l1.len() as int)[i] == l2[i]);
}

proof fn lemma_analog_lines_stable(l1: Seq<Seq<char>>, l2: Seq<Seq<char>>, cursor: int, count: int)
    requires
        extends(l1, l2),
        count >= 0,
        0 <= cursor,
        cursor + count <= l1.len(),
        spec_analog_lines(l1, cursor, count) is Ok,
    ensures
        spec_analog_lines(l2, cursor, count) == spec_analog_lines(l1, cursor, count),
    decreases count,
{
    if count > 0 {
        lemma_extends_index(l1, l2, cursor);
        lemma_analog_lines_stable(l1, l2, cursor + 1, count - 1);
    }
}

proof fn lemma_status_lines_stable(l1: Seq<Seq<char>>, l2: Seq<Seq<char>>, cursor: int, count: int)
    requires
        extends(l1, l2),
        count >= 0,
        0 <= cursor,
        cursor + count <= l1.len(),
        spec_status_lines(l1, cursor, count) is Ok,
    ensures
        spec_status_lines(l2, cursor, count) == spec_status_lines(l1, cursor, count),
    decreases count,
{
    if count > 0 {
        lemma_extends_index(l1, l2, cursor);
        lemma_status_lines_stable(l1, l2, cursor + 1, count - 1);
    }
}

proof fn lemma_rate_lines_stable(l1: Seq<Seq<char>>, l2: Seq<Seq<char>>, cursor: int, count: int)
    requires
        extends(l1, l2),
        count >= 0,
        0 <= cursor,
        cursor + count <= l1.len(),
        spec_rate_lines(l1, cursor, count) is Ok,
    ensures
        spec_rate_lines(l2, cursor, count) == spec_rate_lines(l1, cursor, count),
    decreases count,
{
    if count > 0 {
        lemma_extends_index(l1, l2, cursor);
        lemma_rate_lines_stable(l1, l2, cursor + 1, count - 1);
    }
}

/// Trailing content is rejected: any input whose lines extend those of
/// a successfully parsed input decodes to the trailing-data error,
/// never to a record.
#[verifier::rlimit(100)]
#[verifier::spinoff_prover]
pub proof fn lemma_config_trailing_lines_rejected(s: Seq<char>, t: Seq<char>)
    requires
        spec_parse_config(s) is Ok,
        extends(spec_split_crlf(s), spec_split_crlf(t)),
        spec_split_crlf(t).len() > spec_split_crlf(s).len(),
    ensures
        spec_parse_config(t) == Err::<ConfigurationRecordView, _>(ComtradeError::TrailingData),
{
    let l1 = spec_split_crlf(s);
    let l2 = spec_split_crlf(t);
    lemma_config_consumes_all_lines(s);
    assert(spec_station(l1) is Ok);
    lemma_extends_index(l1, l2, 0);
    lemma_extends_index(l1, l2, 1);
    assert(spec_station(l2) == spec_station(l1));
    let station = spec_station(l1)->Ok_0;
    let na = station.analog_channel_count;
    let ns = station.status_channel_count;
    lemma_analog_lines_stable(l1, l2, 2, na);
    lemma_status_lines_stable(l1, l2, 2 + na, ns);
    let c5 = 2 + na + ns;
    lemma_extends_index(l1, l2, c5);
    assert(spec_rate_block(l1, c5 + 1) is Ok);
    lemma_extends_index(l1, l2, c5 + 1);
    let declared = spec_parse_i32(l1[c5 + 1])->0 as int;
    let read = if declared == 0 {
        1int
    } else {
        declared
    };
    lemma_rate_lines_stable(l1, l2, c5 + 2, read);
    assert(spec_rate_block(l2, c5 + 1) == spec_rate_block(l1, c5 + 1));
    let (rates, c7) = spec_rate_block(l1, c5 + 1)->Ok_0;
    lemma_extends_index(l1, l2, c7);
    lemma_extends_index(l1, l2, c7 + 1);
    lemma_extends_index(l1, l2, c7 + 2);
    lemma_extends_index(l1, l2, c7 + 3);
    assert(spec_time_line(l2[c7], ComtradeError::InvalidFirstDataTime) == spec_time_line(
        l1[c7],
        ComtradeError::InvalidFirstDataTime,
    ));
    assert(spec_time_line(l2[c7 + 1], ComtradeError::InvalidEventTime) == spec_time_line(
        l1[c7 + 1],
        ComtradeError::InvalidEventTime,
    ));
    assert(spec_file_type(l2[c7 + 2]) == spec_file_type(l1[c7 + 2]));
    assert(spec_parse_factor(l2[c7 + 3]) == spec_parse_factor(l1[c7 + 3]));
    assert(c7 + 4 == l1.len());
    assert(c7 + 4 != l2.len());
}

} // verus!
