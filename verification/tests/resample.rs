use stickoverlay::log::Sample;
use stickoverlay::resample::advance;
use stickoverlay::resample::bracket;
use stickoverlay::resample::interp_at;
use stickoverlay::resample::Interp;
use stickoverlay::resample::Playback;

fn sample(t_us: u64, roll: i32) -> Sample<i32> {
    Sample { t_us, roll, pitch: 0, yaw: 0, throttle: 1000 }
}

fn flight() -> Vec<Sample<i32>> {
    vec![sample(100, 0), sample(108, 10), sample(109, 20), sample(140, 30)]
}

#[test]
fn a_point_in_time_stands_between_two_samples() {
    let samples = flight();
    let mut cursor = 0;
    let got = interp_at(&samples, &mut cursor, 104);
    assert_eq!(got, Interp::Between { t_us: 104, a: samples[0], b: samples[1], span_us: 8 });
    assert_eq!(cursor, 0);
    let got = interp_at(&samples, &mut cursor, 120);
    assert_eq!(got, Interp::Between { t_us: 120, a: samples[2], b: samples[3], span_us: 31 });
    assert_eq!(cursor, 2);
}

#[test]
fn a_sample_counts_from_its_own_time_on() {
    let samples = flight();
    let mut cursor = 0;
    let got = interp_at(&samples, &mut cursor, 108);
    assert_eq!(got, Interp::Between { t_us: 108, a: samples[1], b: samples[2], span_us: 1 });
}

#[test]
fn the_last_sample_holds() {
    let samples = flight();
    let mut cursor = 0;
    assert_eq!(interp_at(&samples, &mut cursor, 140), Interp::Hold(samples[3]));
    assert_eq!(interp_at(&samples, &mut cursor, 1_000_000), Interp::Hold(samples[3]));
    assert_eq!(cursor, 3);
    let one = vec![sample(5, 1)];
    let mut cursor = 0;
    assert_eq!(interp_at(&one, &mut cursor, 0), Interp::Hold(one[0]));
}

#[test]
fn before_the_first_sample_the_cursor_stays() {
    let samples = flight();
    let mut cursor = 0;
    let got = interp_at(&samples, &mut cursor, 7);
    assert_eq!(got, Interp::Between { t_us: 7, a: samples[0], b: samples[1], span_us: 8 });
    assert_eq!(cursor, 0);
}

#[test]
fn samples_of_the_same_time_are_passed_together() {
    let samples = vec![sample(10, 1), sample(10, 2), sample(10, 3), sample(20, 4)];
    let mut cursor = 0;
    advance(&samples, &mut cursor, 10);
    assert_eq!(cursor, 2);
    let got = bracket(&samples, 0, 10);
    assert_eq!(got, Interp::Between { t_us: 10, a: samples[0], b: samples[1], span_us: 0 });
}

#[test]
fn going_on_leads_where_going_at_once_does() {
    let samples = flight();
    for earlier in 90..150u64 {
        for later in earlier..150u64 {
            let mut step = 0;
            advance(&samples, &mut step, earlier);
            advance(&samples, &mut step, later);
            let mut jump = 0;
            advance(&samples, &mut jump, later);
            assert_eq!(step, jump);
        }
    }
}

#[test]
fn the_cursor_finds_the_last_sample_that_is_not_later() {
    let samples = flight();
    for t in 100..150u64 {
        let mut cursor = 0;
        advance(&samples, &mut cursor, t);
        for (i, s) in samples.iter().enumerate() {
            assert_eq!(s.t_us <= t, i <= cursor);
        }
    }
}

#[test]
fn a_backward_step_in_time_is_not_crossed() {
    let samples = vec![sample(100, 0), sample(300, 1), sample(50, 2), sample(400, 3)];
    let mut cursor = 0;
    advance(&samples, &mut cursor, 200);
    assert_eq!(cursor, 0);
    advance(&samples, &mut cursor, 300);
    assert_eq!(cursor, 2);
}

#[test]
fn a_flight_has_at_least_one_frame() {
    let start = Playback::new(0);
    assert_eq!(start, Playback { frames: 1, shown: 0, cursor: 0 });
    assert!(!start.is_over());
    assert_eq!(Playback::new(7).frames, 7);
}

#[test]
fn frames_are_shown_one_after_the_other() {
    let samples = flight();
    let times = [100u64, 105, 108, 120, 139, 140];
    let mut playback = Playback::new(times.len() as u64);
    for (i, t) in times.iter().enumerate() {
        assert!(!playback.is_over());
        assert_eq!(playback.shown, i as u64);
        assert!(playback.runs_forward(&samples, Some(*t)));
        let shown = playback.next_frame(&samples, Some(*t));
        let mut cursor = 0;
        assert_eq!(shown, interp_at(&samples, &mut cursor, *t));
        assert_eq!(playback.cursor, cursor);
    }
    assert!(playback.is_over());
}

#[test]
fn a_frame_without_a_time_stays_where_it_is() {
    let samples = flight();
    let mut playback = Playback::new(2);
    playback.next_frame(&samples, Some(108));
    let shown = playback.next_frame(&samples, None);
    assert_eq!(shown, Interp::Between { t_us: 0, a: samples[1], b: samples[2], span_us: 1 });
    assert_eq!(playback, Playback { frames: 2, shown: 2, cursor: 1 });
}

#[test]
fn a_step_back_in_time_is_seen() {
    let samples = vec![sample(100, 0), sample(300, 1), sample(50, 2)];
    let playback = Playback { frames: 3, shown: 1, cursor: 1 };
    assert!(!playback.runs_forward(&samples, Some(10)));
    assert!(playback.runs_forward(&samples, Some(300)));
    assert!(!playback.runs_forward(&samples, None));
}
