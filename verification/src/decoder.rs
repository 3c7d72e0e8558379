//! The blackbox decoder: the calls into the `blackbox_log` crate, and what they
//! are taken to return.

use blackbox_log::frame::Frame;
use blackbox_log::frame::FrameDef;
use blackbox_log::frame::MainValue;
use blackbox_log::DataParser;
use blackbox_log::File;
use blackbox_log::Headers;
use blackbox_log::ParserEvent;
use vstd::prelude::*;
use vstd::utf8::encode_utf8;

verus! {

/// The headers of one log, parsed.
#[verifier::external_type_specification]
#[verifier::external_body]
pub struct ExHeaders<'data>(Headers<'data>);

/// A pass over the data section of one log.
#[verifier::external_type_specification]
#[verifier::external_body]
pub struct ExDataParser<'data, 'headers>(DataParser<'data, 'headers>);

/// The value of one field of a main frame.
#[derive(Clone, Copy, PartialEq, Eq, Debug, Structural)]
pub enum RawValue {
    /// A signed number without a unit.
    Signed(i32),
    /// An unsigned number without a unit.
    Unsigned(u32),
    /// A quantity in volts, amperes or the like.
    Physical,
}

/// One step of the data section, cut down to four columns of the main frames.
#[derive(Clone, Copy)]
pub enum LogEvent {
    /// A main frame: its number in the flight controller's loop, its time, and the
    /// values of the columns that were asked for.
    Main { iteration: Option<u32>, time_us: u64, values: [Option<RawValue>; 4] },
    /// Anything else.
    Other,
}

/// One step of the data section, as the log holds it.
pub enum DecodedEvent {
    /// A main frame: its number in the flight controller's loop, its time, and the
    /// values of its fields.
    Main { iteration: u32, time_us: u64, values: Seq<RawValue> },
    /// Anything else.
    Other,
}

/// One log: the names of its main frame's fields, and the steps of its data
/// section.
pub struct DecodedLog {
    pub fields: Seq<Seq<char>>,
    pub events: Seq<DecodedEvent>,
}

/// The first line of every log.
pub open spec fn marker() -> Seq<u8> {
    encode_utf8("H Product:Blackbox flight data recorder by Nicholas Sherlock\n"@)
}

/// How often the marker stands in `data`.
pub open spec fn marker_count(data: Seq<u8>) -> nat
    decreases data.len(),
{
    if data.len() == 0 {
        0
    } else if marker().is_prefix_of(data) {
        1 + marker_count(data.drop_first())
    } else {
        marker_count(data.drop_first())
    }
}

/// The logs that a file of bytes `data` holds, each with the decoder's account
/// of the error where its headers could not be parsed.
pub uninterp spec fn decoded_logs(data: Seq<u8>) -> Seq<Result<DecodedLog, Seq<char>>>;

/// The names of the fields of a main frame, by column.
pub uninterp spec fn headers_fields(headers: Headers) -> Seq<Seq<char>>;

/// The steps of the data section behind `headers`, up to the first main frame whose
/// iteration is the greatest that 32 bits hold.
pub uninterp spec fn headers_events(headers: Headers) -> Seq<DecodedEvent>;

/// The names of the fields of a main frame, by column.
pub uninterp spec fn parser_fields(parser: DataParser) -> Seq<Seq<char>>;

/// The steps of `headers_events` that are still to come.
pub uninterp spec fn parser_events(parser: DataParser) -> Seq<DecodedEvent>;

/// The iteration of the last main frame that was given out, 0 before the first one.
pub uninterp spec fn parser_iteration(parser: DataParser) -> u32;

/// The name of the field that holds channel `channel`: roll, pitch, yaw,
/// throttle.
pub open spec fn rc_field(channel: int) -> Seq<char> {
    if channel == 0 {
        "rcCommand[0]"@
    } else if channel == 1 {
        "rcCommand[1]"@
    } else if channel == 2 {
        "rcCommand[2]"@
    } else {
        "rcCommand[3]"@
    }
}

/// Whether `columns` are the columns of the four channels in a log with the
/// fields `fields`.
pub open spec fn are_rc_columns(fields: Seq<Seq<char>>, columns: Seq<usize>) -> bool {
    &&& columns.len() == 4
    &&& forall|channel: int|
        0 <= channel < 4 ==> (#[trigger] columns[channel]) < fields.len()
            && fields[columns[channel] as int] == rc_field(channel)
}

/// Whether `event` is `decoded` cut down to the columns `columns`.
pub open spec fn cut_down(event: LogEvent, decoded: DecodedEvent, columns: Seq<usize>) -> bool {
    match decoded {
        DecodedEvent::Other => event is Other,
        DecodedEvent::Main { iteration, time_us, values } => {
            &&& event is Main
            &&& event->iteration == Some(iteration)
            &&& event->time_us == time_us
            &&& forall|channel: int|
                0 <= channel < 4 ==> (#[trigger] event->values[channel]) == Some(
                    values[columns[channel] as int],
                )
        },
    }
}

/// Whether `headers` is what comes of parsing the headers of `log`.
pub open spec fn opens(
    headers: Result<Headers, String>,
    log: Result<DecodedLog, Seq<char>>,
) -> bool {
    match log {
        Ok(log) => {
            &&& headers matches Ok(headers)
            &&& headers_fields(headers) == log.fields
            &&& headers_events(headers) == log.events
        },
        Err(text) => headers matches Err(t) && t@ == text,
    }
}

/// `blackbox_log::File::new` finds the logs of a file by their marker, and
/// `File::iter` parses the headers of each, in the order of the file. What comes
/// back is named: the fields and the data section of a log, or the debug text of
/// the error.
#[verifier::external_body]
pub(crate) fn read_headers<'data>(data: &'data [u8]) -> (res: Vec<Result<Headers<'data>, String>>)
    ensures
        res@.len() == decoded_logs(data@).len(),
        res@.len() == marker_count(data@),
        forall|i: int|
            0 <= i < res@.len() ==> opens(#[trigger] res@[i], decoded_logs(data@)[i]),
{
    File::new(data).iter().map(|headers| headers.map_err(|e| format!("{e:?}"))).collect()
}

/// `MainFrameDef::get` gives the definition of a field by its column, and
/// nothing past the last one; only its name is kept.
#[verifier::external_body]
pub(crate) fn field_name(headers: &Headers, column: usize) -> (res: Option<String>)
    ensures
        res is Some <==> column < headers_fields(*headers).len(),
        res matches Some(name) ==> name@ == headers_fields(*headers)[column as int],
{
    headers.main_frame_def().get(column).map(|field| field.name.to_string())
}

/// `Headers::data_parser` starts a pass over the whole data section, with every
/// field of the main frames kept in its column and no main frame given out yet.
#[verifier::external_body]
pub(crate) fn data_parser<'data, 'headers>(headers: &'headers Headers<'data>) -> (res: DataParser<
    'data,
    'headers,
>)
    ensures
        parser_fields(res) == headers_fields(*headers),
        parser_events(res) == headers_events(*headers),
        parser_iteration(res) == 0,
{
    headers.data_parser()
}

/// `DataParser::next` gives the steps of the data section one after the other,
/// and nothing behind the last one. Of a main frame, `MainFrame::get_raw` gives
/// the iteration, which is its first column, `MainFrame::time_raw` the time and
/// `MainFrame::get` the value of each column; the fields that hold the channels
/// have no unit, so their values are numbers.
///
/// The decoder numbers a frame that does not carry its iteration one past the last
/// main frame it gave out, in 32 bits and without looking for the end of that
/// range, so it is not asked for a step behind a frame that stands there.
#[verifier::external_body]
pub(crate) fn next_event(parser: &mut DataParser, columns: [usize; 4]) -> (res: Option<LogEvent>)
    requires
        are_rc_columns(parser_fields(*old(parser)), columns@),
        parser_iteration(*old(parser)) < u32::MAX,
    ensures
        parser_fields(*final(parser)) == parser_fields(*old(parser)),
        res is Some <==> parser_events(*old(parser)).len() > 0,
        res matches Some(event) ==> cut_down(event, parser_events(*old(parser))[0], columns@),
        res is Some ==> parser_events(*final(parser)) == parser_events(*old(parser)).drop_first(),
        res matches Some(event) ==> parser_iteration(*final(parser)) == match event {
            LogEvent::Main { iteration: Some(iteration), .. } => iteration,
            _ => parser_iteration(*old(parser)),
        },
        res matches Some(LogEvent::Main { values, .. }) ==> forall|channel: int|
            0 <= channel < 4 ==> (#[trigger] values[channel]) is Some && values[channel]
                != Some(RawValue::Physical),
{
    Some(match parser.next()? {
        ParserEvent::Main(frame) => LogEvent::Main {
            iteration: frame.get_raw(0),
            time_us: frame.time_raw(),
            values: columns.map(|column| match frame.get(column) {
                Some(MainValue::Signed(x)) => Some(RawValue::Signed(x)),
                Some(MainValue::Unsigned(x)) => Some(RawValue::Unsigned(x)),
                Some(_) => Some(RawValue::Physical),
                None => None,
            }),
        },
        ParserEvent::Event(_) | ParserEvent::Slow(_) | ParserEvent::Gps(_) => LogEvent::Other,
    })
}

} // verus!
