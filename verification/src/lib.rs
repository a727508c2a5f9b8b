//! Decoders for the three companion files of the COMTRADE
//! disturbance-recording interchange format: the configuration file,
//! the sampled data file (textual or packed binary), and the auxiliary
//! sectioned key/value information file.
//!
//! Each decoder is a pure function from an input buffer (plus, for the
//! data decoder, a schema) to a structured record or a single error;
//! no partial result is ever returned.

use vstd::prelude::*;

pub mod config;
pub mod data;
pub mod info;
pub mod text;
pub mod timescale;

verus! {

/// Everything that can go wrong while decoding one of the three files.
/// Every decoder fails fast: the first violation decides the error.
#[derive(Clone, Copy, Debug, PartialEq, Eq, Structural)]
pub enum ComtradeError {
    /// The station line does not have exactly 3 comma-separated fields.
    StationFieldCount,
    /// The channel-count line does not have exactly 3 fields.
    ChannelCountFieldCount,
    /// An analog descriptor line does not have exactly 13 fields.
    AnalogFieldCount,
    /// A status descriptor line does not have exactly 5 fields.
    StatusFieldCount,
    /// A sample-rate line does not have exactly 2 fields.
    SampleRateFieldCount,
    /// A textual data line does not have exactly
    /// `2 + analog channels + status channels` fields, or a binary data
    /// buffer is not a whole number of records long.
    DataFieldCount,
    /// The total channel count is not an integer.
    InvalidTotalChannelCount,
    /// The analog channel count (with its trailing marker stripped) is
    /// not an integer.
    InvalidAnalogChannelCount,
    /// The status channel count (with its trailing marker stripped) is
    /// not an integer.
    InvalidStatusChannelCount,
    /// An analog channel index is not an integer.
    InvalidAnalogIndex,
    /// A status channel index is not an integer.
    InvalidStatusIndex,
    /// A channel multiplier is not a number.
    InvalidMultiplier,
    /// A channel offset adder is not a number.
    InvalidOffsetAdder,
    /// A channel skew is not a number.
    InvalidSkew,
    /// A channel minimum is not an integer.
    InvalidMinimum,
    /// A channel maximum is not an integer.
    InvalidMaximum,
    /// A primary calibration factor is not a number.
    InvalidPrimaryFactor,
    /// A secondary calibration factor is not a number.
    InvalidSecondaryFactor,
    /// A scaling identifier is neither `p` nor `s` in either case.
    InvalidScalingIdentifier,
    /// A status channel's normal state is neither `0` nor `1`.
    InvalidChannelState,
    /// Fewer lines or bytes than the schema requires.
    EarlyEof,
    /// The declared number of sample rates is not an integer.
    InvalidSampleRateCount,
    /// A sample rate is not a number.
    InvalidSampleRate,
    /// A last-sample number is not an integer.
    InvalidLastSampleNumber,
    /// The first-data-time line has the fixed length but a field of it
    /// does not parse, or the moment cannot be represented.
    InvalidFirstDataTime,
    /// The event-time line has the fixed length but a field of it does
    /// not parse, or the moment cannot be represented.
    InvalidEventTime,
    /// The file type is neither `ascii` nor `binary`, case-insensitively.
    InvalidFileType,
    /// The timestamp multiplication factor is missing, is not a
    /// number, or its digits or power of ten exceed the machine limits
    /// of the exact decimal form.
    InvalidTimestampFactor,
    /// Lines remain after the configuration grammar has consumed its
    /// nine components.
    TrailingData,
    /// A data record's sample number is not an integer.
    InvalidSampleNumber,
    /// A data record's timestamp is unreadable and timestamps are
    /// critical.
    InvalidTimestamp,
    /// An analog sample is not an integer.
    InvalidAnalogValue,
    /// A status sample is not the literal digit `0` or `1`.
    InvalidStatusValue,
    /// A line in section-header position does not begin with `[` and
    /// end with `]`.
    InfoSectionMissingBracket,
    /// A section header has no space separating the visibility word from
    /// the section name.
    InfoSectionMissingSpace,
    /// An entry line has no `=`.
    InfoEntryMissingEquals,
}

/// The four families of decoding failures.
#[derive(Clone, Copy, Debug, PartialEq, Eq, Structural)]
pub enum ErrorKind {
    /// A line with the wrong field count or an unparsable field.
    MalformedLine,
    /// Fewer lines or bytes than the schema requires.
    EarlyEof,
    /// A value outside an accepted enumeration.
    InvalidField,
    /// Unconsumed lines remain after the grammar completes.
    TrailingData,
}

/// The family an error belongs to.
pub open spec fn spec_error_kind(e: ComtradeError) -> ErrorKind {
    match e {
        ComtradeError::EarlyEof => ErrorKind::EarlyEof,
        ComtradeError::TrailingData => ErrorKind::TrailingData,
        ComtradeError::InvalidScalingIdentifier => ErrorKind::InvalidField,
        ComtradeError::InvalidChannelState => ErrorKind::InvalidField,
        ComtradeError::InvalidFileType => ErrorKind::InvalidField,
        _ => ErrorKind::MalformedLine,
    }
}

impl ComtradeError {
    /// The family this error belongs to.
    pub fn kind(&self) -> (k: ErrorKind)
        ensures
            k == spec_error_kind(*self),
    {
        match *self {
            ComtradeError::EarlyEof => ErrorKind::EarlyEof,
            ComtradeError::TrailingData => ErrorKind::TrailingData,
            ComtradeError::InvalidScalingIdentifier => ErrorKind::InvalidField,
            ComtradeError::InvalidChannelState => ErrorKind::InvalidField,
            ComtradeError::InvalidFileType => ErrorKind::InvalidField,
            _ => ErrorKind::MalformedLine,
        }
    }
}

/// Each decoder is a pure function of its input: byte-identical inputs
/// yield structurally identical outcomes, with no hidden state. The
/// decoders' contracts equate every result with one of these spec
/// functions of the input alone, so two runs on equal inputs agree.
pub proof fn lemma_decoding_deterministic(
    a: Seq<char>,
    b: Seq<char>,
    x: Seq<u8>,
    y: Seq<u8>,
    schema: &data::DataSchema,
)
    requires
        a == b,
        x == y,
    ensures
        config::spec_parse_config(a) == config::spec_parse_config(b),
        info::spec_parse_info(a) == info::spec_parse_info(b),
        data::spec_decode_ascii(a, schema) == data::spec_decode_ascii(b, schema),
        data::spec_decode_binary(x, schema) == data::spec_decode_binary(y, schema),
{
}

} // verus!
