//! Flights: the timestamps and RC commands of the logs in a file.

use crate::decoder::are_rc_columns;
use crate::decoder::data_parser;
use crate::decoder::decoded_logs;
use crate::decoder::field_name;
use crate::decoder::headers_events;
use crate::decoder::headers_fields;
use crate::decoder::marker_count;
use crate::decoder::next_event;
use crate::decoder::opens;
use crate::decoder::parser_events;
use crate::decoder::parser_fields;
use crate::decoder::parser_iteration;
use crate::decoder::rc_field;
use crate::decoder::read_headers;
use crate::decoder::DecodedEvent;
use crate::decoder::DecodedLog;
use crate::decoder::LogEvent;
use crate::decoder::RawValue;
use crate::firmware::normalize_firmware;
use crate::firmware::normalized;
use crate::firmware::reported;
use crate::text::decimal;
use crate::text::push_decimal;
use crate::text::push_text;
use crate::text::texts;
use blackbox_log::Headers;
use vstd::prelude::*;

verus! {

/// One RC sample. A log gives whole numbers, or nothing where a field is no
/// number; in between samples the values are fractions.
#[derive(Clone, Copy, Debug, PartialEq, Eq)]
pub struct Sample<V> {
    /// Microseconds since power-on.
    pub t_us: u64,
    pub roll: V,
    pub pitch: V,
    pub yaw: V,
    pub throttle: V,
}

/// What a log says of one channel at one time.
pub type Reading = Option<i64>;

/// One armed flight: a single log inside a file, which may hold several.
#[derive(Debug)]
pub struct Flight {
    /// Place among the logs of the file, counted from 1.
    pub index: usize,
    pub samples: Vec<Sample<Reading>>,
}

/// The number that a field holds; one with a unit counts as none.
pub open spec fn number(value: Option<RawValue>) -> Reading {
    match value {
        Some(RawValue::Signed(x)) => Some(x as i64),
        Some(RawValue::Unsigned(x)) => Some(x as i64),
        _ => None,
    }
}

/// The number that a field holds.
pub fn value_to_number(value: Option<RawValue>) -> (res: Reading)
    ensures
        res == number(value),
        value matches Some(RawValue::Signed(x)) ==> (res matches Some(v) && v == x),
        value matches Some(RawValue::Unsigned(x)) ==> (res matches Some(v) && v == x),
        value == Some(RawValue::Physical) || value is None ==> res is None,
{
    match value {
        Some(RawValue::Signed(x)) => Some(x as i64),
        Some(RawValue::Unsigned(x)) => Some(x as i64),
        _ => None,
    }
}

/// The sample of a frame at `t_us` whose channels hold `values`.
pub open spec fn sample_with(t_us: u64, values: Seq<Option<RawValue>>) -> Sample<Reading> {
    Sample {
        t_us,
        roll: number(values[0]),
        pitch: number(values[1]),
        yaw: number(values[2]),
        throttle: number(values[3]),
    }
}

/// The sample of a frame at `t_us` whose channels hold `values`: roll, pitch,
/// yaw, throttle.
pub fn sample_of(t_us: u64, values: [Option<RawValue>; 4]) -> (res: Sample<Reading>)
    ensures
        res == sample_with(t_us, values@),
        res.t_us == t_us,
        res.roll == number(values@[0]),
        res.pitch == number(values@[1]),
        res.yaw == number(values@[2]),
        res.throttle == number(values@[3]),
{
    Sample {
        t_us,
        roll: value_to_number(values[0]),
        pitch: value_to_number(values[1]),
        yaw: value_to_number(values[2]),
        throttle: value_to_number(values[3]),
    }
}

/// The last column of `fields` that is named `name`.
pub open spec fn column_named(fields: Seq<Seq<char>>, name: Seq<char>) -> Option<usize>
    decreases fields.len(),
{
    if fields.len() == 0 {
        None
    } else if fields.last() == name {
        Some((fields.len() - 1) as usize)
    } else {
        column_named(fields.drop_last(), name)
    }
}

/// The first channel that `fields` does not hold.
pub open spec fn missing_channel(fields: Seq<Seq<char>>) -> Option<int> {
    if column_named(fields, rc_field(0)) is None {
        Some(0)
    } else if column_named(fields, rc_field(1)) is None {
        Some(1)
    } else if column_named(fields, rc_field(2)) is None {
        Some(2)
    } else if column_named(fields, rc_field(3)) is None {
        Some(3)
    } else {
        None
    }
}

/// The columns of the four channels.
pub open spec fn rc_columns_of(fields: Seq<Seq<char>>) -> Seq<usize> {
    Seq::new(4, |channel: int| column_named(fields, rc_field(channel))->0)
}

/// A log was recorded without one of the channels.
#[derive(Clone, Copy, Debug, PartialEq, Eq, Structural)]
pub struct MissingChannel {
    /// The first channel that is missing, counted from 0.
    pub channel: usize,
}

/// Finds the columns of the four channels by the names of the fields.
pub fn rc_columns(fields: &[String]) -> (res: Result<[usize; 4], MissingChannel>)
    ensures
        res is Ok <==> missing_channel(texts(fields@)) is None,
        res matches Ok(columns) ==> columns@ == rc_columns_of(texts(fields@)),
        res matches Err(missing) ==> missing_channel(texts(fields@)) == Some(
            missing.channel as int,
        ),
        res matches Ok(columns) ==> {
            &&& columns[0] < fields@.len() && fields@[columns[0] as int]@ == "rcCommand[0]"@
            &&& forall|j: int|
                columns[0] < j < fields@.len() ==> (#[trigger] fields@[j])@ != "rcCommand[0]"@
            &&& columns[1] < fields@.len() && fields@[columns[1] as int]@ == "rcCommand[1]"@
            &&& forall|j: int|
                columns[1] < j < fields@.len() ==> (#[trigger] fields@[j])@ != "rcCommand[1]"@
            &&& columns[2] < fields@.len() && fields@[columns[2] as int]@ == "rcCommand[2]"@
            &&& forall|j: int|
                columns[2] < j < fields@.len() ==> (#[trigger] fields@[j])@ != "rcCommand[2]"@
            &&& columns[3] < fields@.len() && fields@[columns[3] as int]@ == "rcCommand[3]"@
            &&& forall|j: int|
                columns[3] < j < fields@.len() ==> (#[trigger] fields@[j])@ != "rcCommand[3]"@
        },
        res matches Err(missing) ==> {
            &&& missing.channel < 4
            &&& missing.channel == 0 ==> forall|j: int|
                0 <= j < fields@.len() ==> (#[trigger] fields@[j])@ != "rcCommand[0]"@
            &&& missing.channel > 0 ==> exists|j: int|
                0 <= j < fields@.len() && (#[trigger] fields@[j])@ == "rcCommand[0]"@
            &&& missing.channel == 1 ==> forall|j: int|
                0 <= j < fields@.len() ==> (#[trigger] fields@[j])@ != "rcCommand[1]"@
            &&& missing.channel > 1 ==> exists|j: int|
                0 <= j < fields@.len() && (#[trigger] fields@[j])@ == "rcCommand[1]"@
            &&& missing.channel == 2 ==> forall|j: int|
                0 <= j < fields@.len() ==> (#[trigger] fields@[j])@ != "rcCommand[2]"@
            &&& missing.channel > 2 ==> exists|j: int|
                0 <= j < fields@.len() && (#[trigger] fields@[j])@ == "rcCommand[2]"@
            &&& missing.channel == 3 ==> forall|j: int|
                0 <= j < fields@.len() ==> (#[trigger] fields@[j])@ != "rcCommand[3]"@
            &&& missing.channel > 3 ==> exists|j: int|
                0 <= j < fields@.len() && (#[trigger] fields@[j])@ == "rcCommand[3]"@
        },
{
    let names: [String; 4] = [
        "rcCommand[0]".to_string(),
        "rcCommand[1]".to_string(),
        "rcCommand[2]".to_string(),
        "rcCommand[3]".to_string(),
    ];
    let ghost all = texts(fields@);
    let mut found: [Option<usize>; 4] = [None, None, None, None];
    let n: usize = fields.len();
    for j in 0..n
        invariant
            n == fields@.len(),
            all == texts(fields@),
            forall|channel: int| 0 <= channel < 4 ==> #[trigger] names[channel]@ == rc_field(channel),
            forall|channel: int|
                0 <= channel < 4 ==> #[trigger] found[channel] == column_named(
                    all.take(j as int),
                    rc_field(channel),
                ),
    {
        let ghost seen = all.take(j + 1);
        assert(seen.drop_last() =~= all.take(j as int));
        assert(seen.last() == fields@[j as int]@);
        for k in 0usize..4
            invariant
                j < n,
                n == fields@.len(),
                seen == all.take(j + 1),
                seen.len() == j + 1,
                seen.drop_last() == all.take(j as int),
                seen.last() == fields@[j as int]@,
                forall|channel: int|
                    0 <= channel < 4 ==> #[trigger] names[channel]@ == rc_field(channel),
                forall|channel: int|
                    0 <= channel < k ==> #[trigger] found[channel] == column_named(
                        seen,
                        rc_field(channel),
                    ),
                forall|channel: int|
                    k <= channel < 4 ==> #[trigger] found[channel] == column_named(
                        all.take(j as int),
                        rc_field(channel),
                    ),
        {
            assert(names[k as int]@ == rc_field(k as int));
            if fields[j] == names[k] {
                found[k] = Some(j);
            }
        }
    }
    assert(all.take(n as int) =~= all);
    proof {
        assert(forall|j: int| 0 <= j < fields@.len() ==> all[j] == (#[trigger] fields@[j])@);
        lemma_column_named(all, rc_field(0));
        lemma_column_named(all, rc_field(1));
        lemma_column_named(all, rc_field(2));
        lemma_column_named(all, rc_field(3));
    }
    let mut columns: [usize; 4] = [0, 0, 0, 0];
    for k in 0usize..4
        invariant
            n == fields@.len(),
            all == texts(fields@),
            forall|channel: int|
                0 <= channel < 4 ==> #[trigger] found[channel] == column_named(
                    all,
                    rc_field(channel),
                ),
            forall|channel: int|
                0 <= channel < k ==> #[trigger] found[channel] == Some(columns[channel]),
    {
        match found[k] {
            Some(column) => {
                columns[k] = column;
            },
            None => {
                assert(forall|channel: int| 0 <= channel < k ==> #[trigger] found[channel] is Some);
                assert(k > 0 ==> found[0] is Some);
                assert(k > 1 ==> found[1] is Some);
                assert(k > 2 ==> found[2] is Some);
                assert(found[k as int] == column_named(all, rc_field(k as int)));
                proof {
                    lemma_column_named(all, rc_field(0));
                    lemma_column_named(all, rc_field(1));
                    lemma_column_named(all, rc_field(2));
                    lemma_column_named(all, rc_field(3));
                    assert(forall|j: int|
                        0 <= j < fields@.len() ==> all[j] == (#[trigger] fields@[j])@);
                    if k > 0 {
                        assert(found[0] == column_named(all, rc_field(0)));
                        assert(fields@[found[0]->0 as int]@ == rc_field(0));
                    }
                    if k > 1 {
                        assert(found[1] == column_named(all, rc_field(1)));
                        assert(fields@[found[1]->0 as int]@ == rc_field(1));
                    }
                    if k > 2 {
                        assert(found[2] == column_named(all, rc_field(2)));
                        assert(fields@[found[2]->0 as int]@ == rc_field(2));
                    }
                }
                return Err(MissingChannel { channel: k });
            },
        }
    }
    assert(found[0] is Some && found[1] is Some && found[2] is Some && found[3] is Some);
    assert(columns@ =~= rc_columns_of(all));
    Ok(columns)
}

/// A column is found by its name: the last one that has it, and none only where none has.
proof fn lemma_column_named(fields: Seq<Seq<char>>, name: Seq<char>)
    requires
        fields.len() <= usize::MAX,
    ensures
        column_named(fields, name) matches Some(column) ==> column < fields.len()
            && fields[column as int] == name,
        column_named(fields, name) matches Some(column) ==> forall|j: int|
            column < j < fields.len() ==> #[trigger] fields[j] != name,
        column_named(fields, name) is None ==> forall|j: int|
            0 <= j < fields.len() ==> #[trigger] fields[j] != name,
    decreases fields.len(),
{
    if fields.len() > 0 && fields.last() != name {
        let short = fields.drop_last();
        lemma_column_named(short, name);
        assert(forall|j: int| 0 <= j < short.len() ==> #[trigger] fields[j] == short[j]);
    }
}

/// The four channels are read from the fields `rcCommand[0]` to `rcCommand[3]`, in the order
/// of roll, pitch, yaw and throttle, and from the last field of each name.
pub proof fn law_channels_have_columns(fields: Seq<Seq<char>>)
    requires
        fields.len() <= usize::MAX,
    ensures
        missing_channel(fields) is None <==> fields.contains("rcCommand[0]"@) && fields.contains(
            "rcCommand[1]"@,
        ) && fields.contains("rcCommand[2]"@) && fields.contains("rcCommand[3]"@),
        missing_channel(fields) is None ==> rc_columns_of(fields).len() == 4 && forall|c: int|
            0 <= c < 4 ==> {
                let column = #[trigger] rc_columns_of(fields)[c];
                &&& column < fields.len()
                &&& c == 0 ==> fields[column as int] == "rcCommand[0]"@
                &&& c == 1 ==> fields[column as int] == "rcCommand[1]"@
                &&& c == 2 ==> fields[column as int] == "rcCommand[2]"@
                &&& c == 3 ==> fields[column as int] == "rcCommand[3]"@
                &&& forall|j: int|
                    column < j < fields.len() ==> #[trigger] fields[j] != fields[column as int]
            },
        missing_channel(fields) == Some(0int) <==> !fields.contains("rcCommand[0]"@),
        missing_channel(fields) == Some(1int) <==> fields.contains("rcCommand[0]"@)
            && !fields.contains("rcCommand[1]"@),
        missing_channel(fields) == Some(2int) <==> fields.contains("rcCommand[0]"@)
            && fields.contains("rcCommand[1]"@) && !fields.contains("rcCommand[2]"@),
        missing_channel(fields) == Some(3int) <==> fields.contains("rcCommand[0]"@)
            && fields.contains("rcCommand[1]"@) && fields.contains("rcCommand[2]"@)
            && !fields.contains("rcCommand[3]"@),
{
    lemma_column_named(fields, rc_field(0));
    lemma_column_named(fields, rc_field(1));
    lemma_column_named(fields, rc_field(2));
    lemma_column_named(fields, rc_field(3));
}

/// The samples of the main frames among `events`, in order, up to the first one whose
/// iteration is the greatest that 32 bits hold: the frames are not numbered any further.
pub open spec fn samples_of(events: Seq<DecodedEvent>, columns: Seq<usize>) -> Seq<Sample<Reading>>
    decreases events.len(),
{
    if events.len() == 0 {
        seq![]
    } else {
        let rest = samples_of(events.drop_first(), columns);
        match events[0] {
            DecodedEvent::Main { iteration, time_us, values } => {
                let first = seq![
                    sample_with(
                        time_us,
                        Seq::new(4, |channel: int| Some(values[columns[channel] as int])),
                    ),
                ];
                if iteration == u32::MAX {
                    first
                } else {
                    first + rest
                }
            },
            DecodedEvent::Other => rest,
        }
    }
}

/// Every main frame gives a sample, whatever it holds, up to and with the first one whose
/// iteration is the greatest that 32 bits hold: `at` leads from the samples to all these
/// frames, in order, and each sample has the time and the four numbers of its frame.
pub proof fn law_every_main_frame_gives_a_sample(
    events: Seq<DecodedEvent>,
    columns: Seq<usize>,
) -> (at: Seq<int>)
    ensures
        at.len() == samples_of(events, columns).len(),
        forall|k: int| 0 <= k < at.len() ==> 0 <= #[trigger] at[k] < events.len(),
        forall|k: int, l: int| 0 <= k < l < at.len() ==> at[k] < at[l],
        forall|k: int|
            0 <= k < at.len() ==> {
                &&& events[#[trigger] at[k]] is Main
                &&& forall|j: int|
                    0 <= j < at[k] && #[trigger] events[j] is Main ==> events[j]->iteration
                        != u32::MAX
            },
        forall|i: int|
            0 <= i < events.len() && #[trigger] events[i] is Main && (forall|j: int|
                0 <= j < i && #[trigger] events[j] is Main ==> events[j]->iteration != u32::MAX)
                ==> at.contains(i),
        forall|k: int| 0 <= k < at.len() ==> {
            &&& samples_of(events, columns)[k].t_us == events[at[k]]->time_us
            &&& (#[trigger] samples_of(events, columns)[k]).roll == (match events[at[k]]->values[
                columns[0] as int
            ] {
                    RawValue::Signed(x) => Some(x as i64),
                    RawValue::Unsigned(x) => Some(x as i64),
                    RawValue::Physical => None::<i64>,
                })
            &&& samples_of(events, columns)[k].pitch == (match events[at[k]]->values[
                columns[1] as int
            ] {
                    RawValue::Signed(x) => Some(x as i64),
                    RawValue::Unsigned(x) => Some(x as i64),
                    RawValue::Physical => None::<i64>,
                })
            &&& samples_of(events, columns)[k].yaw == (match events[at[k]]->values[
                columns[2] as int
            ] {
                    RawValue::Signed(x) => Some(x as i64),
                    RawValue::Unsigned(x) => Some(x as i64),
                    RawValue::Physical => None::<i64>,
                })
            &&& samples_of(events, columns)[k].throttle == (match events[at[k]]->values[
                columns[3] as int
            ] {
                    RawValue::Signed(x) => Some(x as i64),
                    RawValue::Unsigned(x) => Some(x as i64),
                    RawValue::Physical => None::<i64>,
                })
        },
{
    let samples = samples_of(events, columns);
    let at = lemma_counted_frames(events, columns);
    assert forall|k: int| 0 <= k < at.len() implies {
        &&& events[#[trigger] at[k]] is Main
        &&& forall|j: int|
            0 <= j < at[k] && #[trigger] events[j] is Main ==> events[j]->iteration != u32::MAX
    } by {
        assert(is_counted(events, at[k]));
    }
    assert forall|i: int|
        0 <= i < events.len() && #[trigger] events[i] is Main && (forall|j: int|
            0 <= j < i && #[trigger] events[j] is Main ==> events[j]->iteration != u32::MAX)
        implies at.contains(i) by {
        assert(is_counted(events, i));
    }
    assert forall|k: int| 0 <= k < at.len() implies is_sample_of(
        #[trigger] samples[k],
        events[at[k]],
        columns,
    ) by {
        assert(at[k] == at[k]);
    }
    at
}

/// Whether the step at `i` is a main frame with no full iteration counter before it.
spec fn is_counted(events: Seq<DecodedEvent>, i: int) -> bool {
    &&& 0 <= i < events.len()
    &&& events[i] is Main
    &&& forall|j: int| 0 <= j < i && #[trigger] events[j] is Main ==> events[j]->iteration != u32::MAX
}

/// Whether `sample` holds what the frame `event` says.
spec fn is_sample_of(sample: Sample<Reading>, event: DecodedEvent, columns: Seq<usize>) -> bool {
    &&& sample.t_us == event->time_us
    &&& sample.roll == number(Some(event->values[columns[0] as int]))
    &&& sample.pitch == number(Some(event->values[columns[1] as int]))
    &&& sample.yaw == number(Some(event->values[columns[2] as int]))
    &&& sample.throttle == number(Some(event->values[columns[3] as int]))
}

/// A step behind the first one is counted where it is among the rest, unless the first one
/// is full.
proof fn lemma_counted_later(events: Seq<DecodedEvent>, i: int)
    requires
        0 < i < events.len(),
    ensures
        is_counted(events, i) <==> is_counted(events.drop_first(), i - 1) && !(events[0] is Main
            && events[0]->iteration == u32::MAX),
{
    let rest = events.drop_first();
    assert(forall|j: int| 0 <= j < rest.len() ==> #[trigger] rest[j] == events[j + 1]);
    if is_counted(events, i) {
        assert(events[0] is Main ==> events[0]->iteration != u32::MAX);
        assert forall|j: int| 0 <= j < i - 1 && #[trigger] rest[j] is Main implies rest[j]->iteration
            != u32::MAX by {
            assert(events[j + 1] is Main);
        }
    }
    if is_counted(rest, i - 1) && !(events[0] is Main && events[0]->iteration == u32::MAX) {
        assert forall|j: int| 0 <= j < i && #[trigger] events[j] is Main implies events[j]->iteration
            != u32::MAX by {
            if j > 0 {
                assert(rest[j - 1] is Main);
            }
        }
    }
}

/// The frames that are counted are those of the samples, in order.
proof fn lemma_counted_frames(events: Seq<DecodedEvent>, columns: Seq<usize>) -> (at: Seq<int>)
    ensures
        at.len() == samples_of(events, columns).len(),
        forall|k: int| 0 <= k < at.len() ==> is_counted(events, #[trigger] at[k]),
        forall|k: int| 0 <= k < at.len() ==> is_sample_of(
            samples_of(events, columns)[k],
            events[#[trigger] at[k]],
            columns,
        ),
        forall|k: int, l: int| 0 <= k < l < at.len() ==> at[k] < at[l],
        forall|i: int| #[trigger] is_counted(events, i) ==> at.contains(i),
    decreases events.len(),
{
    if events.len() == 0 {
        seq![]
    } else {
        let rest = events.drop_first();
        let full = events[0] is Main && events[0]->iteration == u32::MAX;
        let later = lemma_counted_frames(rest, columns);
        let first = if events[0] is Main {
            seq![0int]
        } else {
            seq![]
        };
        let moved = if full {
            seq![]
        } else {
            Seq::new(later.len(), |k: int| later[k] + 1)
        };
        let at = first + moved;
        let n = first.len() as int;
        assert(events[0] is Main ==> is_counted(events, 0));
        assert forall|k: int| n <= k < at.len() implies #[trigger] at[k] == later[k - n] + 1
            && is_counted(events, at[k]) && is_sample_of(
            samples_of(events, columns)[k],
            events[at[k]],
            columns,
        ) by {
            assert(is_counted(rest, later[k - n]));
            lemma_counted_later(events, at[k]);
            assert(samples_of(events, columns)[k] == samples_of(rest, columns)[k - n]);
            assert(rest[later[k - n]] == events[at[k]]);
        }
        assert forall|i: int| #[trigger] is_counted(events, i) implies at.contains(i) by {
            if i == 0 {
                assert(at[0] == 0);
            } else {
                lemma_counted_later(events, i);
                let k = choose|k: int| 0 <= k < later.len() && later[k] == i - 1;
                assert(at[k + n] == i);
            }
        }
        at
    }
}

/// Whether a sample has a number in every channel.
pub open spec fn complete(sample: Sample<Reading>) -> bool {
    sample.roll is Some && sample.pitch is Some && sample.yaw is Some && sample.throttle is Some
}

/// Reads the samples of one log.
fn parse_one(headers: &Headers) -> (res: Result<Vec<Sample<Reading>>, MissingChannel>)
    ensures
        res is Ok <==> missing_channel(headers_fields(*headers)) is None,
        res matches Err(missing) ==> missing_channel(headers_fields(*headers)) == Some(
            missing.channel as int,
        ),
        res matches Ok(samples) ==> samples@ == samples_of(
            headers_events(*headers),
            rc_columns_of(headers_fields(*headers)),
        ),
        res matches Ok(samples) ==> forall|i: int|
            0 <= i < samples@.len() ==> complete(#[trigger] samples@[i]),
{
    let ghost all = headers_fields(*headers);
    let mut names: Vec<String> = Vec::new();
    let mut more = true;
    while more
        invariant
            all == headers_fields(*headers),
            names@.len() <= all.len(),
            texts(names@) == all.take(names@.len() as int),
            !more ==> names@.len() == all.len(),
        decreases all.len() - names@.len() + if more { 1int } else { 0 },
    {
        match field_name(headers, names.len()) {
            Some(name) => {
                let ghost before = names@;
                names.push(name);
                assert(texts(names@) =~= texts(before).push(name@));
                assert(all.take(names@.len() as int) =~= all.take(before.len() as int).push(name@));
            },
            None => {
                more = false;
            },
        }
    }
    assert(all.take(names@.len() as int) =~= all);
    let columns = match rc_columns(names.as_slice()) {
        Ok(columns) => columns,
        Err(missing) => return Err(missing),
    };
    proof {
        assert forall|channel: int| 0 <= channel < 4 implies (#[trigger] columns@[channel])
            < all.len() && all[columns@[channel] as int] == rc_field(channel) by {
            lemma_column_named(all, rc_field(channel));
            assert(columns@[channel] == column_named(all, rc_field(channel))->0);
            assert(channel == 0 || channel == 1 || channel == 2 || channel == 3);
        }
    }
    let ghost steps = headers_events(*headers);
    let mut samples: Vec<Sample<Reading>> = Vec::new();
    let mut parser = data_parser(headers);
    let mut more = true;
    assert(samples@ + samples_of(steps, columns@) =~= samples_of(steps, columns@));
    while more
        invariant
            are_rc_columns(parser_fields(parser), columns@),
            more ==> parser_iteration(parser) < u32::MAX,
            samples_of(steps, columns@) == if more {
                samples@ + samples_of(parser_events(parser), columns@)
            } else {
                samples@
            },
            forall|i: int| 0 <= i < samples@.len() ==> complete(#[trigger] samples@[i]),
        decreases if more { 1 + parser_events(parser).len() } else { 0 },
    {
        let ghost left = parser_events(parser);
        let ghost before = samples@;
        match next_event(&mut parser, columns) {
            Some(LogEvent::Main { iteration, time_us, values }) => {
                let sample = sample_of(time_us, values);
                samples.push(sample);
                proof {
                    let cells = left[0]->values;
                    let picked = Seq::new(4, |channel: int| Some(cells[columns@[channel] as int]));
                    assert(values@ =~= picked);
                    assert(values[0] is Some && values[1] is Some && values[2] is Some && values[3]
                        is Some);
                    if iteration == Some(u32::MAX) {
                        assert(samples@ =~= before + samples_of(left, columns@));
                    } else {
                        assert(samples@ + samples_of(left.drop_first(), columns@) =~= before
                            + samples_of(left, columns@));
                    }
                }
                if iteration == Some(u32::MAX) {
                    more = false;
                }
            },
            Some(LogEvent::Other) => {},
            None => {
                more = false;
                assert(before + samples_of(left, columns@) =~= before);
            },
        }
    }
    Ok(samples)
}

/// Why a log of a file gives no flight.
#[derive(Debug)]
pub enum SkipReason {
    /// Its headers could not be parsed; the decoder's account of the error.
    Headers(String),
    /// It was recorded without one of the channels.
    Missing(MissingChannel),
    /// It has no frames.
    NoFrames,
}

/// What became of one log of a file.
#[derive(Debug)]
pub enum LogOutcome {
    Flight(Flight),
    Skipped { index: usize, reason: SkipReason },
}

/// Whether `outcome` is what becomes of log number `index`, given its samples.
pub open spec fn sampled_outcome(
    index: int,
    samples: Seq<Sample<Reading>>,
    outcome: LogOutcome,
) -> bool {
    if samples.len() == 0 {
        &&& outcome matches LogOutcome::Skipped { index: i, reason: SkipReason::NoFrames }
        &&& i == index
    } else {
        &&& outcome matches LogOutcome::Flight(flight)
        &&& flight.index == index
        &&& flight.samples@ == samples
    }
}

/// Whether `outcome` is what becomes of log number `index`.
pub open spec fn log_outcome(
    index: int,
    log: Result<DecodedLog, Seq<char>>,
    outcome: LogOutcome,
) -> bool {
    match log {
        Err(text) => {
            &&& outcome matches LogOutcome::Skipped { index: i, reason: SkipReason::Headers(t) }
            &&& i == index
            &&& t@ == text
        },
        Ok(log) => match missing_channel(log.fields) {
            Some(channel) => {
                &&& outcome matches LogOutcome::Skipped {
                    index: i,
                    reason: SkipReason::Missing(missing),
                }
                &&& i == index
                &&& missing.channel == channel
            },
            None => sampled_outcome(
                index,
                samples_of(log.events, rc_columns_of(log.fields)),
                outcome,
            ),
        },
    }
}

/// What becomes of log number `index`, given its samples.
pub fn outcome_of_samples(index: usize, samples: Vec<Sample<Reading>>) -> (res: LogOutcome)
    ensures
        sampled_outcome(index as int, samples@, res),
        samples@.len() == 0 ==> (res matches LogOutcome::Skipped {
            index: i,
            reason: SkipReason::NoFrames,
        } && i == index),
        samples@.len() > 0 ==> (res matches LogOutcome::Flight(flight) && flight.index == index
            && flight.samples@ == samples@),
{
    if samples.is_empty() {
        LogOutcome::Skipped { index, reason: SkipReason::NoFrames }
    } else {
        LogOutcome::Flight(Flight { index, samples })
    }
}

/// Whether a flight has samples, and a number in every channel of each.
pub open spec fn sound_flight(flight: Flight) -> bool {
    &&& flight.samples@.len() > 0
    &&& forall|i: int| 0 <= i < flight.samples@.len() ==> complete(#[trigger] flight.samples@[i])
}

/// Whether a log gave a sound flight, or none.
pub open spec fn sound_outcome(outcome: LogOutcome) -> bool {
    outcome matches LogOutcome::Flight(flight) ==> sound_flight(flight)
}

/// A log file, gone through.
#[derive(Debug)]
pub struct FileScan {
    /// The firmware revision that the decoder was not given as it stands.
    pub original_firmware: Option<String>,
    /// What became of each log, in the order of the file.
    pub logs: Vec<LogOutcome>,
}

/// Goes through every log of a file. A log that cannot be used does not stop the
/// others.
pub fn scan_file(bytes: &[u8]) -> (res: FileScan)
    ensures
        res.original_firmware is Some <==> reported(bytes@) is Some,
        res.original_firmware matches Some(text) ==> reported(bytes@) == Some(text@),
        res.logs@.len() == decoded_logs(normalized(bytes@)).len(),
        forall|i: int|
            0 <= i < res.logs@.len() ==> log_outcome(
                i + 1,
                decoded_logs(normalized(bytes@))[i],
                #[trigger] res.logs@[i],
            ),
        res.logs@.len() == marker_count(normalized(bytes@)),
        forall|i: int| 0 <= i < res.logs@.len() ==> sound_outcome(#[trigger] res.logs@[i]),
{
    let (data, original_firmware) = normalize_firmware(bytes);
    let headers = read_headers(data.as_slice());
    let mut logs: Vec<LogOutcome> = Vec::new();
    let n: usize = headers.len();
    for i in 0..n
        invariant
            n == headers@.len(),
            forall|j: int| 0 <= j < n ==> opens(#[trigger] headers@[j], decoded_logs(data@)[j]),
            logs@.len() == i,
            forall|j: int|
                0 <= j < i ==> log_outcome(
                    j + 1,
                    decoded_logs(data@)[j],
                    #[trigger] logs@[j],
                ),
            forall|j: int| 0 <= j < i ==> sound_outcome(#[trigger] logs@[j]),
    {
        let index: usize = i + 1;
        let outcome = match &headers[i] {
            Err(text) => LogOutcome::Skipped { index, reason: SkipReason::Headers(text.clone()) },
            Ok(headers) => match parse_one(headers) {
                Ok(samples) => outcome_of_samples(index, samples),
                Err(missing) => LogOutcome::Skipped { index, reason: SkipReason::Missing(missing) },
            },
        };
        logs.push(outcome);
    }
    FileScan { original_firmware, logs }
}

/// The flights among `logs`, in order.
pub open spec fn flights_among(logs: Seq<LogOutcome>) -> Seq<Flight>
    decreases logs.len(),
{
    if logs.len() == 0 {
        seq![]
    } else {
        match logs.last() {
            LogOutcome::Flight(flight) => flights_among(logs.drop_last()).push(flight),
            LogOutcome::Skipped { .. } => flights_among(logs.drop_last()),
        }
    }
}

/// A file without a log that can be used.
#[derive(Clone, Copy, Debug, PartialEq, Eq, Structural)]
pub struct NoUsableLogs;

impl NoUsableLogs {
    /// What to tell the user.
    pub fn message(&self) -> (res: String)
        ensures
            res@ == "no usable logs found in file"@,
    {
        "no usable logs found in file".to_string()
    }
}

/// The flights among `logs`, in order; none at all is an error.
pub fn usable_flights(logs: Vec<LogOutcome>) -> (res: Result<Vec<Flight>, NoUsableLogs>)
    ensures
        res is Ok <==> flights_among(logs@).len() > 0,
        res matches Ok(flights) ==> flights@ == flights_among(logs@),
{
    let ghost all = logs@;
    let mut flights: Vec<Flight> = Vec::new();
    for log in it: logs.into_iter()
        invariant
            it.seq() == all,
            flights@ == flights_among(all.take(it.index())),
    {
        assert(all.take(it.index() + 1).drop_last() =~= all.take(it.index()));
        assert(all.take(it.index() + 1).last() == log);
        match log {
            LogOutcome::Flight(flight) => flights.push(flight),
            LogOutcome::Skipped { .. } => {},
        }
    }
    assert(all.take(all.len() as int) =~= all);
    if flights.is_empty() {
        Err(NoUsableLogs)
    } else {
        Ok(flights)
    }
}

/// A flight: its place in the file and its samples.
pub struct FlightView {
    pub index: int,
    pub samples: Seq<Sample<Reading>>,
}

impl View for Flight {
    type V = FlightView;

    open spec fn view(&self) -> FlightView {
        FlightView { index: self.index as int, samples: self.samples@ }
    }
}

/// A flight is seen by its number and all its samples, so two that look alike are alike.
pub proof fn law_flights_are_seen_whole(flight: Flight)
    ensures
        flight@.index == flight.index,
        flight@.samples == flight.samples@,
{
}

/// The flight that log number `index` of a file gives, if it gives one.
pub open spec fn flight_of(index: int, log: Result<DecodedLog, Seq<char>>) -> Option<FlightView> {
    match log {
        Err(_) => None,
        Ok(log) => {
            let samples = samples_of(log.events, rc_columns_of(log.fields));
            if missing_channel(log.fields) is Some || samples.len() == 0 {
                None
            } else {
                Some(FlightView { index, samples })
            }
        },
    }
}

/// The flights that the logs of a file give, in the order of the file.
pub open spec fn flights_of(logs: Seq<Result<DecodedLog, Seq<char>>>) -> Seq<FlightView>
    decreases logs.len(),
{
    if logs.len() == 0 {
        seq![]
    } else {
        match flight_of(logs.len() as int, logs.last()) {
            Some(flight) => flights_of(logs.drop_last()).push(flight),
            None => flights_of(logs.drop_last()),
        }
    }
}

/// Each of `flights`, by its view.
pub open spec fn flight_views(flights: Seq<Flight>) -> Seq<FlightView> {
    flights.map_values(|flight: Flight| flight@)
}

proof fn lemma_flights(logs: Seq<LogOutcome>, decoded: Seq<Result<DecodedLog, Seq<char>>>)
    requires
        logs.len() == decoded.len(),
        forall|i: int|
            0 <= i < logs.len() ==> log_outcome(i + 1, decoded[i], #[trigger] logs[i]),
        forall|i: int| 0 <= i < logs.len() ==> sound_outcome(#[trigger] logs[i]),
    ensures
        flight_views(flights_among(logs)) == flights_of(decoded),
        forall|i: int|
            0 <= i < flights_among(logs).len() ==> sound_flight(#[trigger] flights_among(logs)[i]),
    decreases logs.len(),
{
    if logs.len() == 0 {
        assert(flight_views(flights_among(logs)) =~= flights_of(decoded));
    } else {
        let n = logs.len() - 1;
        assert(log_outcome(n + 1, decoded[n], logs[n]));
        assert(sound_outcome(logs[n]));
        lemma_flights(logs.drop_last(), decoded.drop_last());
        assert(flight_views(flights_among(logs)) =~= flights_of(decoded));
    }
}

/// Reads every log of a file. Logs that cannot be used are left out; a file
/// with no other logs is an error.
pub fn parse_file(bytes: &[u8]) -> (res: Result<Vec<Flight>, NoUsableLogs>)
    ensures
        res is Ok <==> flights_of(decoded_logs(normalized(bytes@))).len() > 0,
        res matches Ok(flights) ==> flight_views(flights@) == flights_of(
            decoded_logs(normalized(bytes@)),
        ),
        res matches Ok(flights) ==> forall|i: int|
            0 <= i < flights@.len() ==> sound_flight(#[trigger] flights@[i]),
        marker_count(normalized(bytes@)) == 0 ==> res is Err,
{
    let scan = scan_file(bytes);
    proof {
        lemma_flights(scan.logs@, decoded_logs(normalized(bytes@)));
    }
    usable_flights(scan.logs)
}

/// The flights of a file are numbered by their place among its logs, counted
/// from 1, and come in that order.
pub proof fn law_flights_are_numbered(logs: Seq<Result<DecodedLog, Seq<char>>>)
    ensures
        forall|i: int|
            0 <= i < flights_of(logs).len() ==> 1 <= (#[trigger] flights_of(logs)[i]).index
                <= logs.len(),
        forall|i: int, j: int|
            0 <= i < j < flights_of(logs).len() ==> (#[trigger] flights_of(logs)[i]).index < (
            #[trigger] flights_of(logs)[j]).index,
    decreases logs.len(),
{
    if logs.len() > 0 {
        law_flights_are_numbered(logs.drop_last());
        let earlier = flights_of(logs.drop_last());
        assert(forall|i: int|
            0 <= i < earlier.len() ==> #[trigger] flights_of(logs)[i] == earlier[i]);
    }
}

/// A log gives a flight exactly where its headers can be parsed, it holds the four channels
/// and it has a main frame, whatever the other logs of the file hold; the flight has its
/// number and its samples. There are no other flights, and they come in the order of the
/// file.
pub proof fn law_usable_logs_give_flights(logs: Seq<Result<DecodedLog, Seq<char>>>)
    requires
        forall|i: int|
            0 <= i < logs.len() ==> (#[trigger] logs[i] matches Ok(log) ==> log.fields.len()
                <= usize::MAX),
    ensures
        forall|i: int|
            0 <= i < logs.len() ==> ((#[trigger] logs[i] matches Ok(log) && log.fields.contains(
                "rcCommand[0]"@,
            ) && log.fields.contains("rcCommand[1]"@) && log.fields.contains("rcCommand[2]"@)
                && log.fields.contains("rcCommand[3]"@) && exists|e: int|
                0 <= e < log.events.len() && #[trigger] log.events[e] is Main) <==> exists|k: int|
                0 <= k < flights_of(logs).len() && (#[trigger] flights_of(logs)[k]).index == i + 1),
        forall|k: int|
            0 <= k < flights_of(logs).len() ==> {
                let flight = #[trigger] flights_of(logs)[k];
                &&& 1 <= flight.index <= logs.len()
                &&& logs[flight.index - 1] matches Ok(log) && flight.samples == samples_of(
                    log.events,
                    rc_columns_of(log.fields),
                )
            },
        forall|k: int, l: int|
            0 <= k < l < flights_of(logs).len() ==> (#[trigger] flights_of(logs)[k]).index < (
            #[trigger] flights_of(logs)[l]).index,
{
    law_logs_stand_alone(logs);
    law_flights_are_numbered(logs);
    assert forall|i: int| 0 <= i < logs.len() implies ((#[trigger] logs[i] matches Ok(log)
        && log.fields.contains("rcCommand[0]"@) && log.fields.contains("rcCommand[1]"@)
        && log.fields.contains("rcCommand[2]"@) && log.fields.contains("rcCommand[3]"@)
        && exists|e: int| 0 <= e < log.events.len() && #[trigger] log.events[e] is Main)
        <==> exists|k: int|
        0 <= k < flights_of(logs).len() && (#[trigger] flights_of(logs)[k]).index == i + 1) by {
        match logs[i] {
            Ok(log) => {
                law_channels_have_columns(log.fields);
                lemma_main_frames_give_samples(log.events, rc_columns_of(log.fields));
                if flight_of(i + 1, logs[i]) is Some {
                    let flight = flight_of(i + 1, logs[i])->0;
                    assert(flights_of(logs).contains(flight));
                    let k = choose|k: int|
                        0 <= k < flights_of(logs).len() && flights_of(logs)[k] == flight;
                    assert(flights_of(logs)[k].index == i + 1);
                }
            },
            Err(_) => {},
        }
        if exists|k: int|
            0 <= k < flights_of(logs).len() && (#[trigger] flights_of(logs)[k]).index == i + 1 {
            let k = choose|k: int|
                0 <= k < flights_of(logs).len() && (#[trigger] flights_of(logs)[k]).index == i + 1;
            assert(flight_of(i + 1, logs[i]) == Some(flights_of(logs)[k]));
        }
    }
}

/// There are samples where there is a main frame.
proof fn lemma_main_frames_give_samples(events: Seq<DecodedEvent>, columns: Seq<usize>)
    ensures
        samples_of(events, columns).len() > 0 <==> exists|e: int|
            0 <= e < events.len() && #[trigger] events[e] is Main,
    decreases events.len(),
{
    if events.len() > 0 {
        let rest = events.drop_first();
        lemma_main_frames_give_samples(rest, columns);
        if events[0] is Main {
            assert(samples_of(events, columns).len() > 0);
        } else {
            if exists|e: int| 0 <= e < rest.len() && #[trigger] rest[e] is Main {
                let e = choose|e: int| 0 <= e < rest.len() && #[trigger] rest[e] is Main;
                assert(events[e + 1] is Main);
            }
            if exists|e: int| 0 <= e < events.len() && #[trigger] events[e] is Main {
                let e = choose|e: int| 0 <= e < events.len() && #[trigger] events[e] is Main;
                assert(rest[e - 1] is Main);
            }
        }
    }
}

/// What becomes of a log: it is skipped with the decoder's account where its headers cannot
/// be parsed, with the first channel that is missing, or because it has no main frame; else
/// it gives the flight of its samples.
pub proof fn law_outcome_of_a_log(
    index: int,
    log: Result<DecodedLog, Seq<char>>,
    outcome: LogOutcome,
)
    requires
        log_outcome(index, log, outcome),
        log matches Ok(l) ==> l.fields.len() <= usize::MAX,
    ensures
        outcome matches LogOutcome::Flight(flight) ==> flight.index == index,
        outcome matches LogOutcome::Skipped { index: i, .. } ==> i == index,
        log is Err <==> (outcome matches LogOutcome::Skipped {
            reason: SkipReason::Headers(_),
            ..
        }),
        log matches Err(text) ==> (outcome matches LogOutcome::Skipped {
            reason: SkipReason::Headers(t),
            ..
        } && t@ == text),
        log matches Ok(l) ==> {
            let roll = l.fields.contains("rcCommand[0]"@);
            let pitch = l.fields.contains("rcCommand[1]"@);
            let yaw = l.fields.contains("rcCommand[2]"@);
            let throttle = l.fields.contains("rcCommand[3]"@);
            let flown = exists|e: int| 0 <= e < l.events.len() && #[trigger] l.events[e] is Main;
            &&& roll && pitch && yaw && throttle && flown <==> outcome is Flight
            &&& (outcome matches LogOutcome::Flight(flight) ==> flight.samples@ == samples_of(
                l.events,
                rc_columns_of(l.fields),
            ))
            &&& roll && pitch && yaw && throttle && !flown <==> (outcome matches LogOutcome::Skipped {
                reason: SkipReason::NoFrames,
                ..
            })
            &&& (outcome matches LogOutcome::Skipped { reason: SkipReason::Missing(missing), .. } ==> {
                &&& missing.channel == 0 <==> !roll
                &&& missing.channel == 1 <==> roll && !pitch
                &&& missing.channel == 2 <==> roll && pitch && !yaw
                &&& missing.channel == 3 <==> roll && pitch && yaw && !throttle
            })
        },
{
    if let Ok(l) = log {
        law_channels_have_columns(l.fields);
        lemma_main_frames_give_samples(l.events, rc_columns_of(l.fields));
    }
}

/// The usable flights are those that the logs gave, all of them and in order.
pub proof fn law_usable_flights_are_kept(logs: Seq<LogOutcome>) -> (at: Seq<int>)
    ensures
        at.len() == flights_among(logs).len(),
        forall|k: int|
            0 <= k < at.len() ==> 0 <= #[trigger] at[k] < logs.len() && logs[at[k]]
                == LogOutcome::Flight(flights_among(logs)[k]),
        forall|k: int, l: int| 0 <= k < l < at.len() ==> at[k] < at[l],
        forall|i: int| 0 <= i < logs.len() && #[trigger] logs[i] is Flight ==> at.contains(i),
    decreases logs.len(),
{
    if logs.len() == 0 {
        seq![]
    } else {
        let short = logs.drop_last();
        let n = logs.len() - 1;
        let before = law_usable_flights_are_kept(short);
        assert(forall|i: int| 0 <= i < short.len() ==> #[trigger] logs[i] == short[i]);
        let at = if logs[n] is Flight {
            before.push(n)
        } else {
            before
        };
        assert forall|i: int| 0 <= i < logs.len() && #[trigger] logs[i] is Flight implies at.contains(
            i,
        ) by {
            if i < n {
                assert(short[i] is Flight);
                let k = choose|k: int| 0 <= k < before.len() && before[k] == i;
                assert(at[k] == i);
            } else {
                assert(at[before.len() as int] == n);
            }
        }
        at
    }
}

/// A log that can be used gives a flight, whatever the other logs of the file
/// hold, and there are no other flights.
pub proof fn law_logs_stand_alone(logs: Seq<Result<DecodedLog, Seq<char>>>)
    ensures
        forall|i: int|
            0 <= i < logs.len() ==> (flight_of(i + 1, #[trigger] logs[i]) matches Some(flight)
                ==> flights_of(logs).contains(flight)),
        forall|k: int|
            0 <= k < flights_of(logs).len() ==> {
                let flight = #[trigger] flights_of(logs)[k];
                &&& 1 <= flight.index <= logs.len()
                &&& flight_of(flight.index, logs[flight.index - 1]) == Some(flight)
            },
    decreases logs.len(),
{
    if logs.len() > 0 {
        let short = logs.drop_last();
        law_logs_stand_alone(short);
        let n = logs.len() as int;
        assert forall|i: int| 0 <= i < n implies (flight_of(i + 1, #[trigger] logs[i]) matches Some(
            flight,
        ) ==> flights_of(logs).contains(flight)) by {
            if flight_of(i + 1, logs[i]) is Some {
                let flight = flight_of(i + 1, logs[i])->0;
                if i < n - 1 {
                    assert(short[i] == logs[i]);
                    let k = choose|k: int|
                        0 <= k < flights_of(short).len() && flights_of(short)[k] == flight;
                    assert(flights_of(logs)[k] == flight);
                } else {
                    assert(flights_of(logs).last() == flight);
                }
            }
        }
        assert forall|k: int| 0 <= k < flights_of(logs).len() implies {
            let flight = #[trigger] flights_of(logs)[k];
            &&& 1 <= flight.index <= logs.len()
            &&& flight_of(flight.index, logs[flight.index - 1]) == Some(flight)
        } by {
            if k < flights_of(short).len() {
                assert(flights_of(logs)[k] == flights_of(short)[k]);
                let flight = flights_of(short)[k];
                assert(short[flight.index - 1] == logs[flight.index - 1]);
            }
        }
    }
}

/// What a sample says of channel `channel`: roll, pitch, yaw, throttle.
pub open spec fn reading(sample: Sample<Reading>, channel: int) -> Reading {
    if channel == 0 {
        sample.roll
    } else if channel == 1 {
        sample.pitch
    } else if channel == 2 {
        sample.yaw
    } else {
        sample.throttle
    }
}

/// Whether `range` is the least and the greatest number of channel `channel`
/// among `samples`, or nothing where the channel holds no number.
pub open spec fn is_range(
    samples: Seq<Sample<Reading>>,
    channel: int,
    range: Option<(i64, i64)>,
) -> bool {
    match range {
        None => forall|i: int|
            0 <= i < samples.len() ==> reading(#[trigger] samples[i], channel) is None,
        Some((low, high)) => {
            &&& exists|i: int|
                0 <= i < samples.len() && reading(#[trigger] samples[i], channel) == Some(low)
            &&& exists|i: int|
                0 <= i < samples.len() && reading(#[trigger] samples[i], channel) == Some(high)
            &&& forall|i: int|
                0 <= i < samples.len() ==> (reading(#[trigger] samples[i], channel) matches Some(v)
                    ==> low <= v <= high)
        },
    }
}

/// The ranges are those of roll, pitch, yaw and throttle: the least and the greatest number
/// that the samples hold, and nothing where they hold none.
pub proof fn law_ranges_are_of_the_channels(
    samples: Seq<Sample<Reading>>,
    roll: Option<(i64, i64)>,
    pitch: Option<(i64, i64)>,
    yaw: Option<(i64, i64)>,
    throttle: Option<(i64, i64)>,
)
    requires
        is_range(samples, 0, roll),
        is_range(samples, 1, pitch),
        is_range(samples, 2, yaw),
        is_range(samples, 3, throttle),
    ensures
        forall|i: int|
            0 <= i < samples.len() ==> {
                let s = #[trigger] samples[i];
                &&& s.roll matches Some(v) ==> (roll matches Some((low, high)) && low <= v <= high)
                &&& s.pitch matches Some(v) ==> (pitch matches Some((low, high)) && low <= v <= high)
                &&& s.yaw matches Some(v) ==> (yaw matches Some((low, high)) && low <= v <= high)
                &&& s.throttle matches Some(v) ==> (throttle matches Some((low, high)) && low <= v
                    <= high)
            },
        roll matches Some((low, high)) ==> (exists|i: int|
            0 <= i < samples.len() && (#[trigger] samples[i]).roll == Some(low)) && (exists|i: int|
            0 <= i < samples.len() && (#[trigger] samples[i]).roll == Some(high)),
        pitch matches Some((low, high)) ==> (exists|i: int|
            0 <= i < samples.len() && (#[trigger] samples[i]).pitch == Some(low)) && (exists|i: int|
            0 <= i < samples.len() && (#[trigger] samples[i]).pitch == Some(high)),
        yaw matches Some((low, high)) ==> (exists|i: int|
            0 <= i < samples.len() && (#[trigger] samples[i]).yaw == Some(low)) && (exists|i: int|
            0 <= i < samples.len() && (#[trigger] samples[i]).yaw == Some(high)),
        throttle matches Some((low, high)) ==> (exists|i: int|
            0 <= i < samples.len() && (#[trigger] samples[i]).throttle == Some(low)) && (exists|
            i: int,
        |
            0 <= i < samples.len() && (#[trigger] samples[i]).throttle == Some(high)),
{
    assert forall|i: int| 0 <= i < samples.len() implies {
        let s = #[trigger] samples[i];
        &&& s.roll matches Some(v) ==> (roll matches Some((low, high)) && low <= v <= high)
        &&& s.pitch matches Some(v) ==> (pitch matches Some((low, high)) && low <= v <= high)
        &&& s.yaw matches Some(v) ==> (yaw matches Some((low, high)) && low <= v <= high)
        &&& s.throttle matches Some(v) ==> (throttle matches Some((low, high)) && low <= v <= high)
    } by {
        assert(reading(samples[i], 0) == samples[i].roll);
        assert(reading(samples[i], 1) == samples[i].pitch);
        assert(reading(samples[i], 2) == samples[i].yaw);
        assert(reading(samples[i], 3) == samples[i].throttle);
    }
}

/// `range`, stretched to hold `value`.
pub open spec fn stretched(range: Option<(i64, i64)>, value: Reading) -> Option<(i64, i64)> {
    match (range, value) {
        (_, None) => range,
        (None, Some(v)) => Some((v, v)),
        (Some((low, high)), Some(v)) => Some(
            (if v < low { v } else { low }, if v > high { v } else { high }),
        ),
    }
}

/// `range`, stretched to hold `value`.
fn stretch(range: Option<(i64, i64)>, value: Reading) -> (res: Option<(i64, i64)>)
    ensures
        res == stretched(range, value),
{
    match (range, value) {
        (_, None) => range,
        (None, Some(v)) => Some((v, v)),
        (Some((low, high)), Some(v)) => Some(
            (if v < low { v } else { low }, if v > high { v } else { high }),
        ),
    }
}

proof fn lemma_stretch(
    samples: Seq<Sample<Reading>>,
    sample: Sample<Reading>,
    channel: int,
    range: Option<(i64, i64)>,
)
    requires
        is_range(samples, channel, range),
    ensures
        is_range(samples.push(sample), channel, stretched(range, reading(sample, channel))),
{
    let more = samples.push(sample);
    let n = samples.len() as int;
    assert(more[n] == sample);
    assert(forall|i: int| 0 <= i < n ==> #[trigger] more[i] == samples[i]);
    match range {
        None => {},
        Some((low, high)) => {
            let i = choose|i: int|
                0 <= i < samples.len() && reading(#[trigger] samples[i], channel) == Some(low);
            let j = choose|i: int|
                0 <= i < samples.len() && reading(#[trigger] samples[i], channel) == Some(high);
            assert(more[i] == samples[i]);
            assert(more[j] == samples[j]);
        },
    }
}

impl Flight {
    /// Time from the first sample to the last; none where time runs backwards.
    pub open spec fn duration(self) -> int {
        let samples = self.samples@;
        if samples.len() == 0 || samples.last().t_us < samples.first().t_us {
            0
        } else {
            samples.last().t_us - samples.first().t_us
        }
    }

    /// Time from the first sample to the last, in microseconds.
    pub fn duration_us(&self) -> (res: u64)
        ensures
            res == self.duration(),
            self.samples@.len() > 0 && self.samples@.first().t_us <= self.samples@.last().t_us
                ==> self.samples@.first().t_us + res == self.samples@.last().t_us,
            self.samples@.len() == 0 || self.samples@.last().t_us < self.samples@.first().t_us
                ==> res == 0,
    {
        let n: usize = self.samples.len();
        if n == 0 {
            0
        } else {
            let first: u64 = self.samples[0].t_us;
            let last: u64 = self.samples[n - 1].t_us;
            last.saturating_sub(first)
        }
    }

    /// Time of the first sample, in microseconds since power-on; 0 without one.
    pub fn start_us(&self) -> (res: u64)
        ensures
            res == if self.samples@.len() == 0 { 0 } else { self.samples@[0].t_us },
    {
        if self.samples.is_empty() {
            0
        } else {
            self.samples[0].t_us
        }
    }

    /// Least and greatest number of each channel: roll, pitch, yaw, throttle.
    pub fn ranges(&self) -> (res: [Option<(i64, i64)>; 4])
        ensures
            forall|channel: int|
                0 <= channel < 4 ==> is_range(self.samples@, channel, #[trigger] res[channel]),
    {
        let mut roll: Option<(i64, i64)> = None;
        let mut pitch: Option<(i64, i64)> = None;
        let mut yaw: Option<(i64, i64)> = None;
        let mut throttle: Option<(i64, i64)> = None;
        let n: usize = self.samples.len();
        for i in 0..n
            invariant
                n == self.samples@.len(),
                is_range(self.samples@.take(i as int), 0, roll),
                is_range(self.samples@.take(i as int), 1, pitch),
                is_range(self.samples@.take(i as int), 2, yaw),
                is_range(self.samples@.take(i as int), 3, throttle),
        {
            let sample = &self.samples[i];
            proof {
                let seen = self.samples@.take(i as int);
                assert(self.samples@.take(i + 1) =~= seen.push(*sample));
                lemma_stretch(seen, *sample, 0, roll);
                lemma_stretch(seen, *sample, 1, pitch);
                lemma_stretch(seen, *sample, 2, yaw);
                lemma_stretch(seen, *sample, 3, throttle);
            }
            roll = stretch(roll, sample.roll);
            pitch = stretch(pitch, sample.pitch);
            yaw = stretch(yaw, sample.yaw);
            throttle = stretch(throttle, sample.throttle);
        }
        assert(self.samples@.take(n as int) =~= self.samples@);
        [roll, pitch, yaw, throttle]
    }
}

impl SkipReason {
    /// What to tell the user.
    pub open spec fn describes(self) -> Seq<char> {
        match self {
            SkipReason::Headers(text) => "failed to parse headers: "@ + text@,
            SkipReason::Missing(missing) => "log is missing rcCommand["@ + decimal(
                missing.channel as nat,
            ) + "] — was it logged with RC Commands enabled?"@,
            SkipReason::NoFrames => "no decoded frames"@,
        }
    }

    /// What to tell the user.
    pub fn message(&self) -> (res: String)
        ensures
            res@ == self.describes(),
            self matches SkipReason::Headers(text) ==> res@ == "failed to parse headers: "@ + text@,
            self matches SkipReason::Missing(missing) ==> res@ == "log is missing rcCommand["@
                + decimal(missing.channel as nat)
                + "] — was it logged with RC Commands enabled?"@,
            self is NoFrames ==> res@ == "no decoded frames"@,
    {
        let mut out = String::new();
        match self {
            SkipReason::Headers(text) => {
                push_text(&mut out, "failed to parse headers: ");
                push_text(&mut out, text.as_str());
            },
            SkipReason::Missing(missing) => {
                push_text(&mut out, "log is missing rcCommand[");
                push_decimal(&mut out, missing.channel as u64);
                push_text(&mut out, "] — was it logged with RC Commands enabled?");
            },
            SkipReason::NoFrames => {
                push_text(&mut out, "no decoded frames");
            },
        }
        assert(out@ =~= self.describes());
        out
    }
}

} // verus!
