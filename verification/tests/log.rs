use stickoverlay::decoder::RawValue;
use stickoverlay::log::outcome_of_samples;
use stickoverlay::log::parse_file;
use stickoverlay::log::rc_columns;
use stickoverlay::log::sample_of;
use stickoverlay::log::scan_file;
use stickoverlay::log::usable_flights;
use stickoverlay::log::value_to_number;
use stickoverlay::log::Flight;
use stickoverlay::log::LogOutcome;
use stickoverlay::log::MissingChannel;
use stickoverlay::log::Reading;
use stickoverlay::log::Sample;
use stickoverlay::log::SkipReason;

const MARKER: &str = "H Product:Blackbox flight data recorder by Nicholas Sherlock\n";

fn headers(firmware: &str, fields: &str) -> Vec<u8> {
    let count = fields.split(',').count();
    let each = |first: &str, rest: &str| {
        let mut all = vec![first.to_string()];
        all.extend((0..count).map(|_| rest.to_string()));
        all.join(",")
    };
    let mut out = MARKER.to_string();
    out.push_str("H Data version:2\n");
    out.push_str(&format!("H Field I name:loopIteration,time,{fields}\n"));
    out.push_str(&format!("H Field I signed:{}\n", each("0,0", "1")));
    out.push_str(&format!("H Field I predictor:{}\n", each("0,0", "0")));
    out.push_str(&format!("H Field I encoding:{}\n", each("1,1", "0")));
    out.push_str(&format!("H Field P predictor:{}\n", each("6,2", "0")));
    out.push_str(&format!("H Field P encoding:{}\n", each("9,0", "0")));
    out.push_str("H Field S name:flightModeFlags\n");
    out.push_str("H Field S signed:0\nH Field S predictor:0\nH Field S encoding:1\n");
    out.push_str(&format!("H Firmware revision:{firmware}\n"));
    out.push_str("H motor_pwm_protocol:6\n");
    out.into_bytes()
}

fn unsigned(out: &mut Vec<u8>, mut value: u32) {
    while value > 127 {
        out.push((value & 127) as u8 | 128);
        value >>= 7;
    }
    out.push(value as u8);
}

fn signed(out: &mut Vec<u8>, value: i32) {
    unsigned(out, ((value << 1) ^ (value >> 31)) as u32);
}

fn frame(out: &mut Vec<u8>, iteration: u32, t_us: u32, values: &[i32]) {
    out.push(b'I');
    unsigned(out, iteration);
    unsigned(out, t_us);
    for value in values {
        signed(out, *value);
    }
}

fn end(out: &mut Vec<u8>) {
    out.extend_from_slice(b"E\xffEnd of log\x00");
}

const CHANNELS: &str = "rcCommand[0],rcCommand[1],rcCommand[2],rcCommand[3]";

fn plain_log(firmware: &str) -> Vec<u8> {
    let mut out = headers(firmware, CHANNELS);
    frame(&mut out, 0, 5_000_000, &[-12, 34, 0, 1000]);
    out.extend_from_slice(b"S\x05");
    frame(&mut out, 1, 5_008_000, &[500, -500, 250, 1901]);
    frame(&mut out, 2, 5_016_500, &[7, 8, -9, 1000]);
    end(&mut out);
    out
}

fn sample(t_us: u64, values: [i64; 4]) -> Sample<Reading> {
    Sample {
        t_us,
        roll: Some(values[0]),
        pitch: Some(values[1]),
        yaw: Some(values[2]),
        throttle: Some(values[3]),
    }
}

fn plain_samples() -> Vec<Sample<Reading>> {
    vec![
        sample(5_000_000, [-12, 34, 0, 1000]),
        sample(5_008_000, [500, -500, 250, 1901]),
        sample(5_016_500, [7, 8, -9, 1000]),
    ]
}

#[test]
fn the_frames_of_a_log_are_its_samples() {
    let flights = parse_file(&plain_log("Betaflight 4.5.1 (77d01ba3b) STM32F7X2")).unwrap();
    assert_eq!(flights.len(), 1);
    assert_eq!(flights[0].index, 1);
    assert_eq!(flights[0].samples, plain_samples());
}

#[test]
fn a_dated_firmware_is_read_all_the_same() {
    let scan = scan_file(&plain_log("Betaflight 2025.12.2 (abc) X"));
    assert_eq!(scan.original_firmware, Some("Betaflight 2025.12.2 (abc) X".to_string()));
    let flights = usable_flights(scan.logs).unwrap();
    assert_eq!(flights[0].samples, plain_samples());
    let scan = scan_file(&plain_log("Betaflight 4.4.0"));
    assert_eq!(scan.original_firmware, None);
}

#[test]
fn channels_are_found_by_name() {
    let fields = "axisP[0],rcCommand[3],rcCommand[1],rcCommand[0],axisP[1],rcCommand[2]";
    let mut out = headers("Betaflight 4.5.1", fields);
    frame(&mut out, 0, 77, &[900, 1234, 2, 1, 901, 3]);
    end(&mut out);
    let flights = parse_file(&out).unwrap();
    assert_eq!(flights[0].samples, vec![sample(77, [1, 2, 3, 1234])]);
}

#[test]
fn frames_are_read_as_far_as_they_are_numbered() {
    let mut out = headers("Betaflight 4.5.1", CHANNELS);
    frame(&mut out, 4_294_967_294, 10, &[1, 2, 3, 4]);
    frame(&mut out, 4_294_967_295, 20, &[5, 6, 7, 8]);
    frame(&mut out, 0, 30, &[9, 10, 11, 12]);
    end(&mut out);
    let flights = parse_file(&out).unwrap();
    assert_eq!(flights[0].samples, vec![sample(10, [1, 2, 3, 4]), sample(20, [5, 6, 7, 8])]);
}

#[test]
fn a_frame_without_a_number_follows_the_last_one() {
    let mut out = headers("Betaflight 4.5.1", CHANNELS);
    frame(&mut out, 4_294_967_293, 10, &[1, 2, 3, 4]);
    for value in [5, 6, 7] {
        out.push(b'P');
        signed(&mut out, 0);
        for _ in 0..4 {
            signed(&mut out, value);
        }
    }
    end(&mut out);
    let flights = parse_file(&out).unwrap();
    let rolls: Vec<Option<i64>> = flights[0].samples.iter().map(|s| s.roll).collect();
    assert_eq!(rolls, vec![Some(1), Some(5), Some(6)]);
}

#[test]
fn the_last_field_of_a_name_counts() {
    let fields = "rcCommand[0],rcCommand[0],rcCommand[1],rcCommand[2],rcCommand[3]";
    let mut out = headers("Betaflight 4.5.1", fields);
    frame(&mut out, 0, 9, &[100, 200, 2, 3, 4]);
    end(&mut out);
    let flights = parse_file(&out).unwrap();
    assert_eq!(flights[0].samples, vec![sample(9, [200, 2, 3, 4])]);
}

#[test]
fn a_log_that_cannot_be_used_does_not_stop_the_others() {
    let mut out = b"noise".to_vec();
    out.extend(plain_log("Betaflight 4.5.1"));
    out.extend_from_slice(MARKER.as_bytes());
    out.extend_from_slice(b"H Data version:9\n");
    let mut without = headers("Betaflight 4.5.1", "rcCommand[0],rcCommand[1],rcCommand[3]");
    frame(&mut without, 0, 1, &[1, 2, 3]);
    end(&mut without);
    out.extend(without);
    let mut empty = headers("Betaflight 4.5.1", CHANNELS);
    end(&mut empty);
    out.extend(empty);
    out.extend(plain_log("INAV 7.0.0"));

    let scan = scan_file(&out);
    assert_eq!(scan.logs.len(), 5);
    let messages: Vec<Option<(usize, String)>> = scan
        .logs
        .iter()
        .map(|log| match log {
            LogOutcome::Flight(_) => None,
            LogOutcome::Skipped { index, reason } => Some((*index, reason.message())),
        })
        .collect();
    assert_eq!(messages[0], None);
    assert_eq!(
        messages[1],
        Some((2, "failed to parse headers: UnsupportedDataVersion".to_string()))
    );
    assert_eq!(
        messages[2],
        Some((
            3,
            "log is missing rcCommand[2] — was it logged with RC Commands enabled?".to_string()
        ))
    );
    assert_eq!(messages[3], Some((4, "no decoded frames".to_string())));
    assert_eq!(messages[4], None);

    let flights = parse_file(&out).unwrap();
    let indexes: Vec<usize> = flights.iter().map(|flight| flight.index).collect();
    assert_eq!(indexes, vec![1, 5]);
    assert_eq!(flights[1].samples, plain_samples());
}

#[test]
fn a_file_without_logs_is_an_error() {
    for bytes in [&b""[..], b"not a log", b"H Product:Blackbox flight data recorder"] {
        assert!(scan_file(bytes).logs.is_empty());
        assert_eq!(parse_file(bytes).unwrap_err().message(), "no usable logs found in file");
    }
    let mut empty = headers("Betaflight 4.5.1", CHANNELS);
    end(&mut empty);
    assert_eq!(scan_file(&empty).logs.len(), 1);
    assert!(parse_file(&empty).is_err());
}

#[test]
fn fields_with_a_unit_hold_no_number() {
    assert_eq!(value_to_number(Some(RawValue::Signed(-5))), Some(-5));
    assert_eq!(value_to_number(Some(RawValue::Unsigned(4294967295))), Some(4294967295));
    assert_eq!(value_to_number(Some(RawValue::Physical)), None);
    assert_eq!(value_to_number(None), None);
    let values = [Some(RawValue::Signed(1)), None, Some(RawValue::Physical), Some(RawValue::Unsigned(4))];
    let expected = Sample { t_us: 3, roll: Some(1), pitch: None, yaw: None, throttle: Some(4) };
    assert_eq!(sample_of(3, values), expected);
}

#[test]
fn columns_are_found_or_the_first_missing_one_is_named() {
    let names = |text: &str| text.split(',').map(str::to_string).collect::<Vec<String>>();
    assert_eq!(rc_columns(&names(CHANNELS)), Ok([0, 1, 2, 3]));
    let mixed = names("x,rcCommand[3],rcCommand[2],rcCommand[2],rcCommand[0],rcCommand[1]");
    assert_eq!(rc_columns(&mixed), Ok([4, 5, 3, 1]));
    assert_eq!(rc_columns(&[]), Err(MissingChannel { channel: 0 }));
    let none = names("rcCommand[0],rcCommand[2]");
    assert_eq!(rc_columns(&none), Err(MissingChannel { channel: 1 }));
    let last = names("rcCommand[0],rcCommand[1],rcCommand[2],rcCommand[33]");
    assert_eq!(rc_columns(&last), Err(MissingChannel { channel: 3 }));
}

#[test]
fn samples_make_a_flight() {
    let outcome = outcome_of_samples(4, plain_samples());
    assert!(matches!(outcome, LogOutcome::Flight(Flight { index: 4, .. })));
    let outcome = outcome_of_samples(4, vec![]);
    assert!(matches!(outcome, LogOutcome::Skipped { index: 4, reason: SkipReason::NoFrames }));
}

#[test]
fn a_flight_lasts_from_its_first_sample_to_its_last() {
    let flight = Flight { index: 1, samples: plain_samples() };
    assert_eq!(flight.start_us(), 5_000_000);
    assert_eq!(flight.duration_us(), 16_500);
    let back = Flight { index: 1, samples: vec![sample(9, [0; 4]), sample(4, [0; 4])] };
    assert_eq!((back.start_us(), back.duration_us()), (9, 0));
    let none = Flight { index: 1, samples: vec![] };
    assert_eq!((none.start_us(), none.duration_us()), (0, 0));
}

#[test]
fn ranges_are_the_least_and_the_greatest_numbers() {
    let mut flight = Flight { index: 1, samples: plain_samples() };
    let expected = [Some((-12, 500)), Some((-500, 34)), Some((-9, 250)), Some((1000, 1901))];
    assert_eq!(flight.ranges(), expected);
    for s in flight.samples.iter_mut() {
        s.yaw = None;
    }
    flight.samples[1].roll = None;
    let expected = [Some((-12, 7)), Some((-500, 34)), None, Some((1000, 1901))];
    assert_eq!(flight.ranges(), expected);
    let none = Flight { index: 1, samples: vec![] };
    assert_eq!(none.ranges(), [None; 4]);
}
